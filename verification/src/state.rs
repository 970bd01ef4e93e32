//! Relational model of the durable state store.
//!
//! The store holds crawls, frontier entries and results as ordered tables;
//! a row's id is its position plus one. Frontier entries and results are
//! unique on (crawl id, url): inserting an existing key is a silent no-op,
//! so the first write wins and at most one result is persisted per
//! canonical URL per crawl. A durable backend that reopens the same
//! persisted location must present an equivalent active crawl, frontier
//! and result set through this same interface; every row it holds in the
//! frontier counts as pending, since nothing here claims or completes rows.

use crate::qparams::pairs_view;
use crate::text::equal_str;
use vstd::prelude::*;

verus! {

/// Whether the table holds a row with this (crawl id, url) key.
pub open spec fn table_has<V>(t: Seq<((i64, Seq<char>), V)>, k: (i64, Seq<char>)) -> bool {
    exists|i: int| 0 <= i < t.len() && (#[trigger] t[i]).0 == k
}

/// How many rows hold this key.
pub open spec fn table_count<V>(t: Seq<((i64, Seq<char>), V)>, k: (i64, Seq<char>)) -> nat
    decreases t.len(),
{
    if t.len() == 0 {
        0
    } else {
        table_count(t.drop_last(), k) + if t.last().0 == k {
            1nat
        } else {
            0nat
        }
    }
}

/// No key occurs in two rows.
pub open spec fn table_unique<V>(t: Seq<((i64, Seq<char>), V)>) -> bool {
    forall|i: int, j: int| 0 <= i < j < t.len() ==> (#[trigger] t[i]).0 != (#[trigger] t[j]).0
}

/// Idempotent insert: a row whose key is present already is ignored.
pub open spec fn table_insert<V>(
    t: Seq<((i64, Seq<char>), V)>,
    k: (i64, Seq<char>),
    v: V,
) -> Seq<((i64, Seq<char>), V)> {
    if table_has(t, k) {
        t
    } else {
        t.push((k, v))
    }
}

/// A key is present exactly when it counts at least one row.
pub proof fn lemma_table_count_has<V>(t: Seq<((i64, Seq<char>), V)>, k: (i64, Seq<char>))
    ensures
        table_has(t, k) <==> table_count(t, k) > 0,
    decreases t.len(),
{
    if t.len() > 0 {
        lemma_table_count_has(t.drop_last(), k);
        if table_has(t, k) && t.last().0 != k {
            let i = choose|i: int| 0 <= i < t.len() && (#[trigger] t[i]).0 == k;
            assert(t.drop_last()[i] == t[i]);
        }
        if table_has(t.drop_last(), k) {
            let i = choose|i: int| 0 <= i < t.drop_last().len() && (#[trigger] t.drop_last()[i]).0
                == k;
            assert(t[i] == t.drop_last()[i]);
        }
        if t.last().0 == k {
            assert(t[t.len() - 1].0 == k);
        }
    }
}

/// In a table with unique keys no key counts more than one row.
pub proof fn lemma_table_unique_count<V>(t: Seq<((i64, Seq<char>), V)>, k: (i64, Seq<char>))
    requires
        table_unique(t),
    ensures
        table_count(t, k) <= 1,
        table_count(t, k) == 1 <==> table_has(t, k),
    decreases t.len(),
{
    lemma_table_count_has(t, k);
    if t.len() > 0 {
        let d = t.drop_last();
        assert(table_unique(d)) by {
            assert(forall|i: int| 0 <= i < d.len() ==> d[i] == t[i]);
        }
        lemma_table_unique_count(d, k);
        lemma_table_count_has(d, k);
        if t.last().0 == k && table_has(d, k) {
            let i = choose|i: int| 0 <= i < d.len() && (#[trigger] d[i]).0 == k;
            assert(t[i].0 == k);
            assert(t[t.len() - 1].0 == k);
            assert(false);
        }
    }
}

/// Inserting a key keeps keys unique and leaves exactly one row with it.
pub proof fn lemma_table_insert_unique<V>(
    t: Seq<((i64, Seq<char>), V)>,
    k: (i64, Seq<char>),
    v: V,
)
    requires
        table_unique(t),
    ensures
        table_unique(table_insert(t, k, v)),
        table_count(table_insert(t, k, v), k) == 1,
        table_has(table_insert(t, k, v), k),
    decreases t.len(),
{
    lemma_table_unique_count(t, k);
    if !table_has(t, k) {
        let r = t.push((k, v));
        assert forall|i: int, j: int| 0 <= i < j < r.len() implies (#[trigger] r[i]).0
            != (#[trigger] r[j]).0 by {
            if j == t.len() {
                assert(r[i] == t[i]);
                if t[i].0 == k {
                    assert(table_has(t, k));
                }
            } else {
                assert(r[i] == t[i] && r[j] == t[j]);
            }
        }
        assert(r.drop_last() =~= t);
        lemma_table_count_has(t, k);
        assert(table_count(r, k) == table_count(t, k) + 1);
        assert(r[r.len() - 1].0 == k);
        lemma_table_unique_count(r, k);
    }
}

/// Inserting the same key twice is inserting it once: the second insert
/// changes nothing, whatever value it carries, so exactly one row holds the
/// key and the first write wins.
pub proof fn lemma_table_insert_idempotent<V>(
    t: Seq<((i64, Seq<char>), V)>,
    k: (i64, Seq<char>),
    v1: V,
    v2: V,
)
    requires
        table_unique(t),
    ensures
        table_insert(table_insert(t, k, v1), k, v2) == table_insert(t, k, v1),
        table_count(table_insert(table_insert(t, k, v1), k, v2), k) == 1,
{
    lemma_table_insert_unique(t, k, v1);
}

/// One crawl row: a name and whether the crawl is still active.
pub struct CrawlRow {
    pub name: String,
    pub active: bool,
}

/// One frontier entry: a discovered URL with its depth, keyed by
/// (crawl id, url).
pub struct FrontierRow {
    pub crawl_id: i64,
    pub url: String,
    pub depth: usize,
}

/// One persisted result: the extracted field map of a canonical URL, keyed
/// by (crawl id, url). Never updated or deleted.
pub struct ResultRow {
    pub crawl_id: i64,
    pub url: String,
    pub data: Vec<(String, String)>,
}

/// The id of the most recently created crawl that is still active.
pub open spec fn last_active(s: Seq<(Seq<char>, bool)>) -> Option<i64>
    decreases s.len(),
{
    if s.len() == 0 {
        None
    } else if s.last().1 {
        Some(s.len() as i64)
    } else {
        last_active(s.drop_last())
    }
}

/// The pending frontier rows of a crawl from position `from` on, each as
/// (row id, url, depth).
pub open spec fn pending_from(
    fv: Seq<((i64, Seq<char>), int)>,
    c: i64,
    from: int,
) -> Seq<(int, Seq<char>, int)>
    decreases fv.len() - from when 0 <= from <= fv.len()
{
    if from >= fv.len() {
        Seq::<(int, Seq<char>, int)>::empty()
    } else if fv[from].0.0 == c {
        seq![(from + 1, fv[from].0.1, fv[from].1)] + pending_from(fv, c, from + 1)
    } else {
        pending_from(fv, c, from + 1)
    }
}

/// The canonical URLs of a crawl's persisted results from position `from`
/// on, in insertion order.
pub open spec fn result_urls_from(
    rv: Seq<((i64, Seq<char>), Seq<(Seq<char>, Seq<char>)>)>,
    c: i64,
    from: int,
) -> Seq<Seq<char>>
    decreases rv.len() - from when 0 <= from <= rv.len()
{
    if from >= rv.len() {
        Seq::<Seq<char>>::empty()
    } else if rv[from].0.0 == c {
        seq![rv[from].0.1] + result_urls_from(rv, c, from + 1)
    } else {
        result_urls_from(rv, c, from + 1)
    }
}

/// In-memory model of the durable state store.
pub struct StateManager {
    crawls: Vec<CrawlRow>,
    frontier: Vec<FrontierRow>,
    results: Vec<ResultRow>,
}

impl StateManager {
    /// The crawls as (name, active), in creation order; a crawl's id is its
    /// position plus one.
    pub closed spec fn crawls_view(&self) -> Seq<(Seq<char>, bool)> {
        self.crawls@.map_values(|c: CrawlRow| (c.name@, c.active))
    }

    /// The frontier as key/depth rows, in insertion order.
    pub closed spec fn frontier_view(&self) -> Seq<((i64, Seq<char>), int)> {
        self.frontier@.map_values(|e: FrontierRow| ((e.crawl_id, e.url@), e.depth as int))
    }

    /// The results as key/data rows, in insertion order.
    pub closed spec fn results_view(&self) -> Seq<((i64, Seq<char>), Seq<(Seq<char>, Seq<char>)>)> {
        self.results@.map_values(|e: ResultRow| ((e.crawl_id, e.url@), pairs_view(e.data@)))
    }

    /// Keys are unique in frontier and results, and row counts leave room
    /// for one more id.
    pub closed spec fn wf(&self) -> bool {
        &&& table_unique(self.frontier_view())
        &&& table_unique(self.results_view())
        &&& self.crawls@.len() < 0x7fff_ffff
        &&& self.frontier@.len() < 0x7fff_ffff
        &&& self.results@.len() < 0x7fff_ffff
    }

    /// A fresh, empty store.
    pub fn new() -> (r: Self)
        ensures
            r.wf(),
            r.crawls_view() == Seq::<(Seq<char>, bool)>::empty(),
            r.frontier_view() == Seq::<((i64, Seq<char>), int)>::empty(),
            r.results_view() == Seq::<((i64, Seq<char>), Seq<(Seq<char>, Seq<char>)>)>::empty(),
    {
        let r = Self { crawls: Vec::new(), frontier: Vec::new(), results: Vec::new() };
        proof {
            assert(r.crawls_view() =~= Seq::<(Seq<char>, bool)>::empty());
            assert(r.frontier_view() =~= Seq::<((i64, Seq<char>), int)>::empty());
            assert(r.results_view() =~= Seq::<(
                (i64, Seq<char>),
                Seq<(Seq<char>, Seq<char>)>,
            )>::empty());
        }
        r
    }

    /// How many crawls the store holds.
    pub fn crawls_len(&self) -> (n: usize)
        ensures
            n == self.crawls_view().len(),
    {
        self.crawls.len()
    }

    /// How many frontier rows the store holds.
    pub fn frontier_len(&self) -> (n: usize)
        ensures
            n == self.frontier_view().len(),
    {
        self.frontier.len()
    }

    /// How many results the store holds.
    pub fn results_len(&self) -> (n: usize)
        ensures
            n == self.results_view().len(),
    {
        self.results.len()
    }

    /// Creates a crawl with status active and returns its id.
    pub fn create_crawl(&mut self, name: &str) -> (r: i64)
        requires
            old(self).wf(),
            old(self).crawls_view().len() + 1 < 0x7fff_ffff,
        ensures
            final(self).wf(),
            final(self).crawls_view() == old(self).crawls_view().push((name@, true)),
            r == old(self).crawls_view().len() + 1,
            final(self).frontier_view() == old(self).frontier_view(),
            final(self).results_view() == old(self).results_view(),
    {
        let ghost pre = self.crawls_view();
        let id = (self.crawls.len() + 1) as i64;
        self.crawls.push(CrawlRow { name: String::from_str(name), active: true });
        proof {
            assert(self.crawls_view() =~= pre.push((name@, true)));
            assert(self.frontier_view() =~= old(self).frontier_view());
            assert(self.results_view() =~= old(self).results_view());
        }
        id
    }

    /// The most recently created crawl that is still active, if any;
    /// resume-by-default looks the active crawl up this way.
    pub fn get_active_crawl(&self) -> (r: Option<i64>)
        requires
            self.wf(),
        ensures
            r == last_active(self.crawls_view()),
    {
        let mut j = self.crawls.len();
        proof {
            assert(self.crawls_view().take(j as int) =~= self.crawls_view());
        }
        while j > 0
            invariant
                j <= self.crawls@.len(),
                self.wf(),
                last_active(self.crawls_view()) == last_active(self.crawls_view().take(j as int)),
            decreases j,
        {
            proof {
                assert(self.crawls_view().take(j as int).last() == self.crawls_view()[j - 1]);
                assert(self.crawls_view().take(j as int).drop_last() =~= self.crawls_view().take(
                    j - 1,
                ));
            }
            if self.crawls[j - 1].active {
                return Some(j as i64);
            }
            j = j - 1;
        }
        proof {
            assert(self.crawls_view().take(0) =~= Seq::<(Seq<char>, bool)>::empty());
        }
        None
    }

    /// Whether the frontier holds this (crawl id, url) key.
    fn frontier_has_key(&self, crawl_id: i64, url: &str) -> (r: bool)
        ensures
            r == table_has(self.frontier_view(), (crawl_id, url@)),
    {
        let mut i: usize = 0;
        while i < self.frontier.len()
            invariant
                i <= self.frontier@.len(),
                forall|j: int| 0 <= j < i ==> (#[trigger] self.frontier_view()[j]).0 != (
                crawl_id,
                url@,
                ),
            decreases self.frontier@.len() - i,
        {
            let e = &self.frontier[i];
            if e.crawl_id == crawl_id && equal_str(e.url.as_str(), url) {
                proof {
                    assert(self.frontier_view()[i as int].0 == (crawl_id, url@));
                }
                return true;
            }
            proof {
                assert(self.frontier_view()[i as int].0 != (crawl_id, url@));
            }
            i = i + 1;
        }
        false
    }

    /// Whether a result for this (crawl id, url) key is persisted.
    fn result_has_key(&self, crawl_id: i64, url: &str) -> (r: bool)
        ensures
            r == table_has(self.results_view(), (crawl_id, url@)),
    {
        let mut i: usize = 0;
        while i < self.results.len()
            invariant
                i <= self.results@.len(),
                forall|j: int| 0 <= j < i ==> (#[trigger] self.results_view()[j]).0 != (
                crawl_id,
                url@,
                ),
            decreases self.results@.len() - i,
        {
            let e = &self.results[i];
            if e.crawl_id == crawl_id && equal_str(e.url.as_str(), url) {
                proof {
                    assert(self.results_view()[i as int].0 == (crawl_id, url@));
                }
                return true;
            }
            proof {
                assert(self.results_view()[i as int].0 != (crawl_id, url@));
            }
            i = i + 1;
        }
        false
    }

    /// Idempotent bulk insert into the frontier: each (url, depth) becomes a
    /// pending row unless the crawl already has the url, which is ignored.
    pub fn add_to_frontier(&mut self, crawl_id: i64, urls: Vec<(String, usize)>)
        requires
            old(self).wf(),
            old(self).frontier_view().len() + urls@.len() < 0x7fff_ffff,
        ensures
            final(self).wf(),
            final(self).frontier_view() == spec_add_all(
                old(self).frontier_view(),
                crawl_id,
                urls@.map_values(|p: (String, usize)| (p.0@, p.1 as int)),
            ),
            final(self).crawls_view() == old(self).crawls_view(),
            final(self).results_view() == old(self).results_view(),
    {
        let ghost uv = urls@.map_values(|p: (String, usize)| (p.0@, p.1 as int));
        let mut i: usize = 0;
        proof {
            assert(uv.skip(0) =~= uv);
        }
        while i < urls.len()
            invariant
                i <= urls@.len(),
                self.wf(),
                self.frontier_view().len() <= old(self).frontier_view().len() + i,
                old(self).frontier_view().len() + urls@.len() < 0x7fff_ffff,
                uv == urls@.map_values(|p: (String, usize)| (p.0@, p.1 as int)),
                spec_add_all(old(self).frontier_view(), crawl_id, uv) == spec_add_all(
                    self.frontier_view(),
                    crawl_id,
                    uv.skip(i as int),
                ),
                self.crawls_view() == old(self).crawls_view(),
                self.results_view() == old(self).results_view(),
            decreases urls@.len() - i,
        {
            let url = urls[i].0.clone();
            let depth = urls[i].1;
            let ghost pre = self.frontier_view();
            if !self.frontier_has_key(crawl_id, url.as_str()) {
                proof {
                    lemma_table_insert_unique(pre, (crawl_id, url@), depth as int);
                }
                self.frontier.push(FrontierRow { crawl_id, url, depth });
                proof {
                    assert(self.frontier_view() =~= pre.push(((crawl_id, url@), depth as int)));
                }
            }
            proof {
                assert(self.frontier_view() == table_insert(pre, (crawl_id, uv[i as int].0), uv[i as int].1));
                assert(uv.skip(i as int)[0] == uv[i as int]);
                assert(uv.skip(i as int).skip(1) =~= uv.skip(i + 1));
            }
            i = i + 1;
        }
        proof {
            assert(uv.skip(urls@.len() as int) =~= Seq::<(Seq<char>, int)>::empty());
        }
    }

    /// Reads up to `limit` pending rows of a crawl, in insertion order, as
    /// (row id, url, depth). The read claims nothing: repeated calls may
    /// return the same rows.
    pub fn get_pending_frontier(&self, crawl_id: i64, limit: usize) -> (r: Vec<(i64, String, usize)>)
        requires
            self.wf(),
        ensures
            r@.map_values(|e: (i64, String, usize)| (e.0 as int, e.1@, e.2 as int)) == if limit
                as int <= pending_from(self.frontier_view(), crawl_id, 0).len() {
                pending_from(self.frontier_view(), crawl_id, 0).take(limit as int)
            } else {
                pending_from(self.frontier_view(), crawl_id, 0)
            },
    {
        let ghost full = pending_from(self.frontier_view(), crawl_id, 0);
        let mut out: Vec<(i64, String, usize)> = Vec::new();
        let mut i: usize = 0;
        proof {
            assert(out@.map_values(|e: (i64, String, usize)| (e.0 as int, e.1@, e.2 as int)) =~=
                Seq::<(int, Seq<char>, int)>::empty());
        }
        while i < self.frontier.len() && out.len() < limit
            invariant
                i <= self.frontier@.len(),
                self.wf(),
                out@.len() <= limit,
                full == pending_from(self.frontier_view(), crawl_id, 0),
                full == out@.map_values(|e: (i64, String, usize)| (e.0 as int, e.1@, e.2 as int))
                    + pending_from(self.frontier_view(), crawl_id, i as int),
            decreases self.frontier@.len() - i,
        {
            let ghost pv = out@.map_values(|e: (i64, String, usize)| (e.0 as int, e.1@, e.2 as int));
            let e = &self.frontier[i];
            if e.crawl_id == crawl_id {
                let row = ((i + 1) as i64, e.url.clone(), e.depth);
                out.push(row);
                proof {
                    assert(self.frontier_view()[i as int] == ((e.crawl_id, e.url@), e.depth as int));
                    assert(out@.map_values(|e: (i64, String, usize)| (e.0 as int, e.1@, e.2 as int))
                        =~= pv.push((i + 1, e.url@, e.depth as int)));
                    assert(pv.push((i + 1, e.url@, e.depth as int)) + pending_from(
                        self.frontier_view(),
                        crawl_id,
                        i + 1,
                    ) =~= pv + (seq![(i + 1, e.url@, e.depth as int)] + pending_from(
                        self.frontier_view(),
                        crawl_id,
                        i + 1,
                    )));
                }
            } else {
                proof {
                    assert(self.frontier_view()[i as int].0.0 != crawl_id);
                }
            }
            i = i + 1;
        }
        proof {
            let pv = out@.map_values(|e: (i64, String, usize)| (e.0 as int, e.1@, e.2 as int));
            if i == self.frontier@.len() {
                assert(pending_from(self.frontier_view(), crawl_id, i as int) =~= Seq::<(
                    int,
                    Seq<char>,
                    int,
                )>::empty());
                assert(pv + Seq::<(int, Seq<char>, int)>::empty() =~= pv);
                if limit as int <= full.len() {
                    assert(pv =~= full.take(limit as int));
                }
            } else {
                assert(pv.len() == limit);
                assert(full.len() >= limit);
                assert(pv =~= full.take(limit as int));
            }
        }
        out
    }

    /// Idempotent insert of one result: a duplicate canonical URL for the
    /// same crawl is a silent no-op, so the first persisted data wins.
    pub fn save_result(&mut self, crawl_id: i64, url: &str, data: Vec<(String, String)>)
        requires
            old(self).wf(),
            old(self).results_view().len() + 1 < 0x7fff_ffff,
        ensures
            final(self).wf(),
            final(self).results_view() == table_insert(
                old(self).results_view(),
                (crawl_id, url@),
                pairs_view(data@),
            ),
            final(self).crawls_view() == old(self).crawls_view(),
            final(self).frontier_view() == old(self).frontier_view(),
    {
        let ghost pre = self.results_view();
        if !self.result_has_key(crawl_id, url) {
            proof {
                lemma_table_insert_unique(pre, (crawl_id, url@), pairs_view(data@));
            }
            self.results.push(ResultRow { crawl_id, url: String::from_str(url), data });
            proof {
                assert(self.results_view() =~= pre.push(((crawl_id, url@), pairs_view(data@))));
            }
        }
    }

    /// The canonical URLs that have a persisted result for this crawl, in
    /// insertion order; they seed the dedup cache on startup and resume.
    pub fn get_visited_urls(&self, crawl_id: i64) -> (r: Vec<String>)
        requires
            self.wf(),
        ensures
            r@.map_values(|u: String| u@) == result_urls_from(self.results_view(), crawl_id, 0),
    {
        let mut out: Vec<String> = Vec::new();
        let mut i: usize = 0;
        proof {
            assert(out@.map_values(|u: String| u@) =~= Seq::<Seq<char>>::empty());
            assert(Seq::<Seq<char>>::empty() + result_urls_from(self.results_view(), crawl_id, 0)
                =~= result_urls_from(self.results_view(), crawl_id, 0));
        }
        while i < self.results.len()
            invariant
                i <= self.results@.len(),
                self.wf(),
                result_urls_from(self.results_view(), crawl_id, 0) == out@.map_values(
                    |u: String| u@,
                ) + result_urls_from(self.results_view(), crawl_id, i as int),
            decreases self.results@.len() - i,
        {
            let ghost pv = out@.map_values(|u: String| u@);
            let e = &self.results[i];
            if e.crawl_id == crawl_id {
                out.push(e.url.clone());
                proof {
                    assert(self.results_view()[i as int].0 == (e.crawl_id, e.url@));
                    assert(out@.map_values(|u: String| u@) =~= pv.push(e.url@));
                    assert(pv.push(e.url@) + result_urls_from(self.results_view(), crawl_id, i + 1)
                        =~= pv + (seq![e.url@] + result_urls_from(
                        self.results_view(),
                        crawl_id,
                        i + 1,
                    )));
                }
            } else {
                proof {
                    assert(self.results_view()[i as int].0.0 != crawl_id);
                }
            }
            i = i + 1;
        }
        proof {
            assert(result_urls_from(self.results_view(), crawl_id, self.results@.len() as int) =~=
                Seq::<Seq<char>>::empty());
            assert(out@.map_values(|u: String| u@) + Seq::<Seq<char>>::empty() =~=
                out@.map_values(|u: String| u@));
        }
        out
    }

    /// The same read as `get_visited_urls`, under the name the result-table
    /// consumers use.
    pub fn get_results_urls(&self, crawl_id: i64) -> (r: Vec<String>)
        requires
            self.wf(),
        ensures
            r@.map_values(|u: String| u@) == result_urls_from(self.results_view(), crawl_id, 0),
    {
        self.get_visited_urls(crawl_id)
    }
}

/// Folds idempotent inserts of (url, depth) rows for one crawl, in order.
pub open spec fn spec_add_all(
    fv: Seq<((i64, Seq<char>), int)>,
    c: i64,
    urls: Seq<(Seq<char>, int)>,
) -> Seq<((i64, Seq<char>), int)>
    decreases urls.len(),
{
    if urls.len() == 0 {
        fv
    } else {
        spec_add_all(table_insert(fv, (c, urls[0].0), urls[0].1), c, urls.skip(1))
    }
}

} // verus!
