//! Query-parameter model: a query text is split on `&` into `key[=value]`
//! pairs, the pairs are sorted by key (stably, so equal keys keep their
//! order), and reassembled. Bare keys without `=` are kept as flags.

use crate::text::find_first_in;
use crate::text::find_first_of;
use crate::text::lemma_find_first_in;
use crate::text::lemma_find_first_in_is;
use crate::text::lemma_text_le_antisymmetric;
use crate::text::lemma_text_le_total;
use crate::text::lemma_text_le_transitive;
use crate::text::push_char;
use crate::text::text_le;
use crate::text::text_le_exec;
use vstd::prelude::*;
use vstd::seq_lib::group_to_multiset_ensures;
use vstd::string::StrSliceExecFns;
use vstd::string::StringExecFns;

verus! {

broadcast use vstd::seq_lib::group_filter_ensures;

/// One `key[=value]` pair, split at the first `=`; a bare key has the empty
/// value.
pub open spec fn split_pair(p: Seq<char>) -> (Seq<char>, Seq<char>) {
    let i = find_first_in(p, 0, seq!['=']);
    if i == p.len() {
        (p, Seq::<char>::empty())
    } else {
        (p.subrange(0, i), p.subrange(i + 1, p.len() as int))
    }
}

/// The pairs of the `&`-separated text `s` from position `from` on, with
/// `cur` the part of the current pair already read.
pub open spec fn pairs_from(s: Seq<char>, from: int, cur: Seq<char>) -> Seq<(Seq<char>, Seq<char>)>
    decreases s.len() - from when 0 <= from <= s.len()
{
    if from >= s.len() {
        seq![split_pair(cur)]
    } else if s[from] == '&' {
        seq![split_pair(cur)] + pairs_from(s, from + 1, Seq::<char>::empty())
    } else {
        pairs_from(s, from + 1, cur.push(s[from]))
    }
}

/// The `key[=value]` pairs of a query text (already without its leading `?`).
pub open spec fn query_pairs(qs: Seq<char>) -> Seq<(Seq<char>, Seq<char>)> {
    pairs_from(qs, 0, Seq::<char>::empty())
}

/// A pair that holds anything at all; a pair that is empty on both sides
/// (nothing between two `&`, or a lone `=`) carries no parameter.
pub open spec fn nonempty_pair(p: (Seq<char>, Seq<char>)) -> bool {
    p.0.len() > 0 || p.1.len() > 0
}

/// The views of a vector of owned pairs.
pub open spec fn pairs_view(v: Seq<(String, String)>) -> Seq<(Seq<char>, Seq<char>)> {
    v.map_values(|p: (String, String)| (p.0@, p.1@))
}

/// Stable insertion of `p` into a key-sorted sequence: `p` goes after every
/// pair whose key is less than or equal to its own.
pub open spec fn insert_pair(
    s: Seq<(Seq<char>, Seq<char>)>,
    p: (Seq<char>, Seq<char>),
) -> Seq<(Seq<char>, Seq<char>)>
    decreases s.len(),
{
    if s.len() == 0 {
        seq![p]
    } else if text_le(s.last().0, p.0) {
        s.push(p)
    } else {
        insert_pair(s.drop_last(), p).push(s.last())
    }
}

/// Stable insertion sort of pairs by key.
pub open spec fn sort_pairs(s: Seq<(Seq<char>, Seq<char>)>) -> Seq<(Seq<char>, Seq<char>)>
    decreases s.len(),
{
    if s.len() == 0 {
        Seq::<(Seq<char>, Seq<char>)>::empty()
    } else {
        insert_pair(sort_pairs(s.drop_last()), s.last())
    }
}

/// Keys appear in non-decreasing order.
pub open spec fn sorted_by_key(s: Seq<(Seq<char>, Seq<char>)>) -> bool {
    forall|i: int, j: int| 0 <= i < j < s.len() ==> text_le(#[trigger] s[i].0, #[trigger] s[j].0)
}

/// No two pairs share a key.
pub open spec fn distinct_keys(s: Seq<(Seq<char>, Seq<char>)>) -> bool {
    forall|i: int, j: int| 0 <= i < j < s.len() ==> (#[trigger] s[i].0) != (#[trigger] s[j].0)
}

/// The text of one pair: `key=value`, or the bare key when the value is
/// empty.
pub open spec fn pair_text(p: (Seq<char>, Seq<char>)) -> Seq<char> {
    if p.1.len() == 0 {
        p.0
    } else {
        p.0 + seq!['='] + p.1
    }
}

/// The pairs rendered back into one `&`-separated text.
pub open spec fn join_pairs(s: Seq<(Seq<char>, Seq<char>)>) -> Seq<char>
    decreases s.len(),
{
    if s.len() == 0 {
        Seq::<char>::empty()
    } else if s.len() == 1 {
        pair_text(s[0])
    } else {
        join_pairs(s.drop_last()) + seq!['&'] + pair_text(s.last())
    }
}

/// Splits a query text (without its leading `?`) into its pairs, dropping
/// pairs that are empty on both sides.
pub fn split_query(qs: &str) -> (r: Vec<(String, String)>)
    ensures
        pairs_view(r@) == query_pairs(qs@).filter(|p| nonempty_pair(p)),
{
    let n = qs.unicode_len();
    let mut out: Vec<(String, String)> = Vec::new();
    let mut cur = String::new();
    let mut i: usize = 0;
    proof {
        assert(pairs_view(out@) =~= Seq::<(Seq<char>, Seq<char>)>::empty());
    }
    while i < n
        invariant
            i <= n,
            n == qs@.len(),
            query_pairs(qs@).filter(|p| nonempty_pair(p)) == pairs_view(out@) + pairs_from(
                qs@,
                i as int,
                cur@,
            ).filter(|p| nonempty_pair(p)),
        decreases n - i,
    {
        let c = qs.get_char(i);
        if c == '&' {
            push_split_pair(&mut out, &cur);
            cur = String::new();
        } else {
            push_char(&mut cur, c);
        }
        i = i + 1;
    }
    push_split_pair(&mut out, &cur);
    out
}

/// Splits one raw pair at its first `=` and appends it, unless it is empty
/// on both sides.
fn push_split_pair(out: &mut Vec<(String, String)>, cur: &String)
    ensures
        pairs_view(final(out)@) == pairs_view(old(out)@) + seq![split_pair(cur@)].filter(
            |p| nonempty_pair(p),
        ),
{
    let ghost pre = out@;
    proof {
        reveal_strlit("=");
        assert("="@ =~= seq!['=']);
    }
    let cl = cur.as_str().unicode_len();
    let e = find_first_of(cur.as_str(), 0, "=");
    proof {
        lemma_find_first_in(cur@, 0, seq!['=']);
    }
    let k: String;
    let v: String;
    if e == cl {
        k = cur.clone();
        v = String::new();
    } else {
        k = String::from_str(cur.as_str().substring_char(0, e));
        v = String::from_str(cur.as_str().substring_char(e + 1, cl));
    }
    let keep = k.as_str().unicode_len() > 0 || v.as_str().unicode_len() > 0;
    proof {
        if e == cl {
            assert(find_first_in(cur@, 0, seq!['=']) == cur@.len());
            assert(split_pair(cur@) == (cur@, Seq::<char>::empty()));
        } else {
            assert(split_pair(cur@) == (
                cur@.subrange(0, e as int),
                cur@.subrange(e + 1, cur@.len() as int),
            ));
        }
        assert(k@ == split_pair(cur@).0 && v@ == split_pair(cur@).1);
        reveal_with_fuel(Seq::<_>::filter, 2);
        assert(seq![split_pair(cur@)].drop_last() =~= Seq::<(Seq<char>, Seq<char>)>::empty());
    }
    if keep {
        out.push((k, v));
        proof {
            assert(pairs_view(out@) =~= pairs_view(pre).push(split_pair(cur@)));
            assert(seq![split_pair(cur@)].filter(|p| nonempty_pair(p)) =~= seq![split_pair(cur@)]);
            assert(pairs_view(out@) =~= pairs_view(pre) + seq![split_pair(cur@)].filter(
                |p| nonempty_pair(p),
            ));
        }
    } else {
        proof {
            assert(seq![split_pair(cur@)].filter(|p| nonempty_pair(p)) =~= Seq::<(
                Seq<char>,
                Seq<char>,
            )>::empty());
            assert(pairs_view(out@) =~= pairs_view(pre) + seq![split_pair(cur@)].filter(
                |p| nonempty_pair(p),
            ));
        }
    }
}

/// Sorts pairs by key, stably.
pub fn sort_query(v: Vec<(String, String)>) -> (r: Vec<(String, String)>)
    ensures
        pairs_view(r@) == sort_pairs(pairs_view(v@)),
{
    let mut out: Vec<(String, String)> = Vec::new();
    let mut i: usize = 0;
    proof {
        assert(pairs_view(out@) =~= Seq::<(Seq<char>, Seq<char>)>::empty());
        assert(pairs_view(v@).take(0) =~= Seq::<(Seq<char>, Seq<char>)>::empty());
    }
    while i < v.len()
        invariant
            i <= v@.len(),
            pairs_view(out@) == sort_pairs(pairs_view(v@).take(i as int)),
        decreases v@.len() - i,
    {
        let p = (v[i].0.clone(), v[i].1.clone());
        insert_sorted(&mut out, p);
        proof {
            assert(pairs_view(v@).take(i + 1).drop_last() =~= pairs_view(v@).take(i as int));
            assert(pairs_view(v@).take(i + 1).last() == pairs_view(v@)[i as int]);
        }
        i = i + 1;
    }
    proof {
        assert(pairs_view(v@).take(v@.len() as int) =~= pairs_view(v@));
    }
    out
}

/// Inserts one pair into a vector whose views are key-sorted, after every
/// pair whose key is less than or equal to its own.
fn insert_sorted(out: &mut Vec<(String, String)>, p: (String, String))
    ensures
        pairs_view(final(out)@) == insert_pair(pairs_view(old(out)@), (p.0@, p.1@)),
{
    let ghost pv = pairs_view(out@);
    let ghost q = (p.0@, p.1@);
    let n = out.len();
    let mut j: usize = n;
    proof {
        assert(pv.take(n as int) =~= pv);
        assert(insert_pair(pv, q) + pv.skip(n as int) =~= insert_pair(pv, q));
    }
    loop
        invariant_except_break
            j <= n,
            n == out@.len(),
            pv == pairs_view(out@),
            q == (p.0@, p.1@),
            insert_pair(pv, q) == insert_pair(pv.take(j as int), q) + pv.skip(j as int),
        ensures
            j <= n,
            n == out@.len(),
            pv == pairs_view(out@),
            q == (p.0@, p.1@),
            insert_pair(pv, q) == insert_pair(pv.take(j as int), q) + pv.skip(j as int),
            j > 0 ==> text_le(pv[j - 1].0, q.0),
        decreases j,
    {
        if j == 0 {
            break;
        }
        proof {
            assert(pv[j - 1] == (out@[j - 1].0@, out@[j - 1].1@));
        }
        if text_le_exec(out[j - 1].0.as_str(), p.0.as_str()) {
            break;
        }
        proof {
            let s = pv.take(j as int);
            assert(s.last() == pv[j - 1]);
            assert(s.drop_last() =~= pv.take(j - 1));
            assert(insert_pair(s, q) == insert_pair(s.drop_last(), q).push(s.last()));
            assert(insert_pair(pv.take(j - 1), q).push(s.last()) + pv.skip(j as int) =~=
                insert_pair(pv.take(j - 1), q) + pv.skip(j - 1));
        }
        j = j - 1;
    }
    proof {
        let s = pv.take(j as int);
        if j > 0 {
            assert(s.last() == pv[j - 1]);
            assert(insert_pair(s, q) == s.push(q));
        } else {
            assert(s =~= Seq::<(Seq<char>, Seq<char>)>::empty());
            assert(insert_pair(s, q) == seq![q]);
        }
    }
    out.insert(j, p);
    proof {
        assert(pairs_view(out@) =~= pv.take(j as int).push(q) + pv.skip(j as int));
    }
}

/// Stable insertion keeps the sequence key-sorted, adds exactly the new
/// pair to the contents, and grows the length by one.
pub proof fn lemma_insert_pair_sorted(s: Seq<(Seq<char>, Seq<char>)>, p: (Seq<char>, Seq<char>))
    requires
        sorted_by_key(s),
    ensures
        sorted_by_key(insert_pair(s, p)),
        insert_pair(s, p).to_multiset() == s.to_multiset().insert(p),
        insert_pair(s, p).len() == s.len() + 1,
    decreases s.len(),
{
    broadcast use group_to_multiset_ensures;

    let r = insert_pair(s, p);
    if s.len() == 0 {
        assert(r =~= Seq::<(Seq<char>, Seq<char>)>::empty().push(p));
        assert(s.to_multiset() =~= Seq::<(Seq<char>, Seq<char>)>::empty().to_multiset());
    } else if text_le(s.last().0, p.0) {
        assert(r == s.push(p));
        assert forall|i: int, j: int| 0 <= i < j < r.len() implies text_le(
            #[trigger] r[i].0,
            #[trigger] r[j].0,
        ) by {
            if j == s.len() {
                if i < s.len() - 1 {
                    assert(text_le(s[i].0, s.last().0));
                    lemma_text_le_transitive(s[i].0, s.last().0, p.0);
                }
            }
        }
    } else {
        let d = s.drop_last();
        lemma_insert_pair_sorted(d, p);
        let t = insert_pair(d, p);
        assert(r == t.push(s.last()));
        lemma_text_le_total(s.last().0, p.0);
        assert(text_le(p.0, s.last().0));
        assert forall|i: int| 0 <= i < t.len() implies text_le(#[trigger] t[i].0, s.last().0) by {
            assert(t.to_multiset().count(t[i]) > 0);
            assert(t.contains(t[i]));
            if t[i] == p {
                assert(text_le(p.0, s.last().0));
            } else {
                assert(d.to_multiset().count(t[i]) > 0);
                assert(d.contains(t[i]));
                let k = choose|k: int| 0 <= k < d.len() && d[k] == t[i];
                assert(s[k] == t[i]);
                assert(text_le(s[k].0, s.last().0));
            }
        }
        assert forall|i: int, j: int| 0 <= i < j < r.len() implies text_le(
            #[trigger] r[i].0,
            #[trigger] r[j].0,
        ) by {
            if j < t.len() {
                assert(r[i] == t[i] && r[j] == t[j]);
            } else {
                assert(r[j] == s.last());
                assert(r[i] == t[i]);
            }
        }
        assert(s =~= d.push(s.last()));
        assert(s.to_multiset() == d.to_multiset().insert(s.last()));
        assert(r.to_multiset() =~= s.to_multiset().insert(p));
    }
}

/// Sorting arranges the keys in order and keeps exactly the same pairs.
pub proof fn lemma_sort_pairs_sorted(s: Seq<(Seq<char>, Seq<char>)>)
    ensures
        sorted_by_key(sort_pairs(s)),
        sort_pairs(s).to_multiset() == s.to_multiset(),
        sort_pairs(s).len() == s.len(),
    decreases s.len(),
{
    broadcast use group_to_multiset_ensures;

    if s.len() == 0 {
        assert(sort_pairs(s) =~= Seq::<(Seq<char>, Seq<char>)>::empty());
    } else {
        let d = s.drop_last();
        lemma_sort_pairs_sorted(d);
        lemma_insert_pair_sorted(sort_pairs(d), s.last());
        assert(s =~= d.push(s.last()));
        assert(s.to_multiset() == d.to_multiset().insert(s.last()));
    }
}

/// Sorting an already key-sorted sequence leaves it as it is.
pub proof fn lemma_sort_pairs_of_sorted(s: Seq<(Seq<char>, Seq<char>)>)
    requires
        sorted_by_key(s),
    ensures
        sort_pairs(s) == s,
    decreases s.len(),
{
    if s.len() > 0 {
        let d = s.drop_last();
        assert(sorted_by_key(d)) by {
            assert forall|i: int, j: int| 0 <= i < j < d.len() implies text_le(
                #[trigger] d[i].0,
                #[trigger] d[j].0,
            ) by {
                assert(d[i] == s[i] && d[j] == s[j]);
            }
        }
        lemma_sort_pairs_of_sorted(d);
        if d.len() > 0 {
            assert(d.last() == s[s.len() - 2]);
            assert(text_le(d.last().0, s.last().0));
            assert(insert_pair(d, s.last()) == d.push(s.last()));
        }
        assert(sort_pairs(s) == insert_pair(d, s.last()));
        assert(sort_pairs(s) =~= s);
    }
}

/// Two key-sorted sequences that hold the same pairs, with no key twice,
/// are the same sequence.
pub proof fn lemma_sorted_unique(s1: Seq<(Seq<char>, Seq<char>)>, s2: Seq<(Seq<char>, Seq<char>)>)
    requires
        sorted_by_key(s1),
        sorted_by_key(s2),
        distinct_keys(s1),
        s1.to_multiset() == s2.to_multiset(),
    ensures
        s1 == s2,
    decreases s1.len(),
{
    broadcast use group_to_multiset_ensures;

    assert(s1.len() == s1.to_multiset().len());
    assert(s2.len() == s2.to_multiset().len());
    if s1.len() == 0 {
        assert(s1 =~= s2);
    } else {
        let a = s1.last();
        let b = s2.last();
        assert(s1.contains(a));
        assert(s1.to_multiset().count(a) > 0);
        assert(s2.contains(a));
        let k = choose|k: int| 0 <= k < s2.len() && s2[k] == a;
        assert(s2.contains(b));
        assert(s1.to_multiset().count(b) > 0);
        assert(s1.contains(b));
        let m = choose|m: int| 0 <= m < s1.len() && s1[m] == b;
        lemma_text_le_total(a.0, a.0);
        lemma_text_le_total(b.0, b.0);
        assert(text_le(a.0, b.0)) by {
            if k < s2.len() - 1 {
                assert(text_le(s2[k].0, s2.last().0));
            }
        }
        assert(text_le(b.0, a.0)) by {
            if m < s1.len() - 1 {
                assert(text_le(s1[m].0, s1.last().0));
            }
        }
        lemma_text_le_antisymmetric(a.0, b.0);
        assert(a.0 == b.0);
        assert(a == b) by {
            if m < s1.len() - 1 {
                assert(s1[m].0 != s1[s1.len() - 1].0);
                assert(false);
            }
        }
        let d1 = s1.drop_last();
        let d2 = s2.drop_last();
        assert(s1 =~= d1.push(a));
        assert(s2 =~= d2.push(b));
        assert(s1.to_multiset() == d1.to_multiset().insert(a));
        assert(s2.to_multiset() == d2.to_multiset().insert(b));
        assert(d1.to_multiset() =~= d2.to_multiset()) by {
            assert(d1.to_multiset() =~= s1.to_multiset().remove(a));
            assert(d2.to_multiset() =~= s2.to_multiset().remove(b));
        }
        assert(sorted_by_key(d1) && distinct_keys(d1)) by {
            assert(forall|i: int| 0 <= i < d1.len() ==> d1[i] == s1[i]);
        }
        assert(sorted_by_key(d2)) by {
            assert(forall|i: int| 0 <= i < d2.len() ==> d2[i] == s2[i]);
        }
        lemma_sorted_unique(d1, d2);
        assert(s1 =~= s2);
    }
}

/// Key distinctness carries over to any reordering of the same pairs.
pub proof fn lemma_distinct_keys_permutation(
    s1: Seq<(Seq<char>, Seq<char>)>,
    s2: Seq<(Seq<char>, Seq<char>)>,
)
    requires
        distinct_keys(s1),
        s1.to_multiset() == s2.to_multiset(),
    ensures
        distinct_keys(s2),
{
    broadcast use group_to_multiset_ensures;

    assert(s1.no_duplicates()) by {
        assert forall|i: int, j: int|
            0 <= i < s1.len() && 0 <= j < s1.len() && i != j implies s1[i] != s1[j] by {
            if i < j {
                assert(s1[i].0 != s1[j].0);
            } else {
                assert(s1[j].0 != s1[i].0);
            }
        }
    }
    s1.lemma_multiset_has_no_duplicates();
    assert(forall|x: (Seq<char>, Seq<char>)|
        s2.to_multiset().contains(x) ==> s2.to_multiset().count(x) == 1);
    s2.lemma_multiset_has_no_duplicates_conv();
    assert forall|i: int, j: int| 0 <= i < j < s2.len() implies (#[trigger] s2[i].0)
        != (#[trigger] s2[j].0) by {
        assert(s2[i] != s2[j]);
        assert(s2.contains(s2[i]) && s2.contains(s2[j]));
        assert(s1.to_multiset().count(s2[i]) > 0 && s1.to_multiset().count(s2[j]) > 0);
        assert(s1.contains(s2[i]) && s1.contains(s2[j]));
        let k = choose|k: int| 0 <= k < s1.len() && s1[k] == s2[i];
        let m = choose|m: int| 0 <= m < s1.len() && s1[m] == s2[j];
        if s2[i].0 == s2[j].0 {
            if k < m {
                assert(s1[k].0 != s1[m].0);
            } else if m < k {
                assert(s1[m].0 != s1[k].0);
            }
            assert(false);
        }
    }
}

/// Sorting two reorderings of the same pairs gives the same sequence, as
/// long as no key occurs twice.
pub proof fn lemma_sort_pairs_permutation(
    s1: Seq<(Seq<char>, Seq<char>)>,
    s2: Seq<(Seq<char>, Seq<char>)>,
)
    requires
        distinct_keys(s1),
        s1.to_multiset() == s2.to_multiset(),
    ensures
        sort_pairs(s1) == sort_pairs(s2),
{
    lemma_sort_pairs_sorted(s1);
    lemma_sort_pairs_sorted(s2);
    lemma_distinct_keys_permutation(s1, sort_pairs(s1));
    lemma_sorted_unique(sort_pairs(s1), sort_pairs(s2));
}

/// A pair as splitting produces it: the key holds no `=` and no `&`, the
/// value no `&`.
pub open spec fn wf_pair(p: (Seq<char>, Seq<char>)) -> bool {
    &&& !p.0.contains('=')
    &&& !p.0.contains('&')
    &&& !p.1.contains('&')
}

/// A character missing from a text is missing from any of its subranges.
pub proof fn lemma_no_char_subrange(s: Seq<char>, a: int, b: int, c: char)
    requires
        !s.contains(c),
        0 <= a <= b <= s.len(),
    ensures
        !s.subrange(a, b).contains(c),
{
    assert forall|i: int| 0 <= i < b - a implies s.subrange(a, b)[i] != c by {
        assert(s.subrange(a, b)[i] == s[a + i]);
    }
}

/// A character missing from two texts is missing from their concatenation.
pub proof fn lemma_no_char_concat(a: Seq<char>, b: Seq<char>, c: char)
    requires
        !a.contains(c),
        !b.contains(c),
    ensures
        !(a + b).contains(c),
{
    assert forall|i: int| 0 <= i < (a + b).len() implies (a + b)[i] != c by {
        if i < a.len() {
            assert((a + b)[i] == a[i]);
        } else {
            assert((a + b)[i] == b[i - a.len()]);
        }
    }
}

/// Splitting a raw pair without `&` gives a well-formed pair.
pub proof fn lemma_split_pair_wf(cur: Seq<char>)
    requires
        !cur.contains('&'),
    ensures
        wf_pair(split_pair(cur)),
{
    let i = find_first_in(cur, 0, seq!['=']);
    lemma_find_first_in(cur, 0, seq!['=']);
    if i == cur.len() {
        assert(!cur.contains('=')) by {
            assert forall|j: int| 0 <= j < cur.len() implies cur[j] != '=' by {
                assert(!seq!['='].contains(cur[j]));
                assert(seq!['='][0] == '=');
            }
        }
    } else {
        let k = cur.subrange(0, i);
        let v = cur.subrange(i + 1, cur.len() as int);
        assert(!k.contains('=')) by {
            assert forall|j: int| 0 <= j < k.len() implies k[j] != '=' by {
                assert(k[j] == cur[j]);
                assert(!seq!['='].contains(cur[j]));
                assert(seq!['='][0] == '=');
            }
        }
        lemma_no_char_subrange(cur, 0, i, '&');
        lemma_no_char_subrange(cur, i + 1, cur.len() as int, '&');
    }
}

/// Every pair that splitting yields is well-formed.
pub proof fn lemma_pairs_from_wf(s: Seq<char>, from: int, cur: Seq<char>)
    requires
        0 <= from <= s.len(),
        !cur.contains('&'),
    ensures
        forall|i: int|
            0 <= i < pairs_from(s, from, cur).len() ==> wf_pair(#[trigger] pairs_from(
                s,
                from,
                cur,
            )[i]),
    decreases s.len() - from,
{
    if from >= s.len() {
        lemma_split_pair_wf(cur);
        let r = pairs_from(s, from, cur);
        assert forall|i: int| 0 <= i < r.len() implies wf_pair(#[trigger] r[i]) by {
            assert(r[i] == split_pair(cur));
        }
    } else if s[from] == '&' {
        lemma_split_pair_wf(cur);
        lemma_pairs_from_wf(s, from + 1, Seq::<char>::empty());
        let r = pairs_from(s, from, cur);
        let rest = pairs_from(s, from + 1, Seq::<char>::empty());
        assert forall|i: int| 0 <= i < r.len() implies wf_pair(#[trigger] r[i]) by {
            if i == 0 {
                assert(r[0] == split_pair(cur));
            } else {
                assert(r[i] == rest[i - 1]);
            }
        }
    } else {
        assert(!cur.push(s[from]).contains('&')) by {
            assert forall|j: int| 0 <= j < cur.len() + 1 implies cur.push(s[from])[j] != '&' by {
                if j < cur.len() {
                    assert(cur.push(s[from])[j] == cur[j]);
                }
            }
        }
        lemma_pairs_from_wf(s, from + 1, cur.push(s[from]));
        let r = pairs_from(s, from, cur);
        let r2 = pairs_from(s, from + 1, cur.push(s[from]));
        assert(r == r2);
        assert forall|i: int| 0 <= i < r.len() implies wf_pair(#[trigger] r[i]) by {
            assert(r[i] == r2[i]);
        }
    }
}

/// On a text without `&`, splitting yields the one pair of the whole text.
pub proof fn lemma_pairs_from_no_amp(s: Seq<char>, from: int, cur: Seq<char>)
    requires
        0 <= from <= s.len(),
        forall|j: int| from <= j < s.len() ==> s[j] != '&',
    ensures
        pairs_from(s, from, cur) == seq![split_pair(cur + s.skip(from))],
    decreases s.len() - from,
{
    if from >= s.len() {
        assert(cur + s.skip(from) =~= cur);
    } else {
        lemma_pairs_from_no_amp(s, from + 1, cur.push(s[from]));
        assert(cur.push(s[from]) + s.skip(from + 1) =~= cur + s.skip(from));
    }
}

/// Splitting is insensitive to a prefix that lies wholly before `from`.
pub proof fn lemma_pairs_from_shift(x: Seq<char>, y: Seq<char>, from: int, cur: Seq<char>)
    requires
        0 <= from <= y.len(),
    ensures
        pairs_from(x + y, x.len() + from, cur) == pairs_from(y, from, cur),
    decreases y.len() - from,
{
    if from >= y.len() {
    } else {
        assert((x + y)[x.len() + from] == y[from]);
        if y[from] == '&' {
            lemma_pairs_from_shift(x, y, from + 1, Seq::<char>::empty());
        } else {
            lemma_pairs_from_shift(x, y, from + 1, cur.push(y[from]));
        }
    }
}

/// Splitting walks a `&` between two texts: the pairs of the whole are the
/// pairs of the left text followed by the pairs of the right one.
pub proof fn lemma_pairs_concat(a: Seq<char>, b: Seq<char>, from: int, cur: Seq<char>)
    requires
        0 <= from <= a.len(),
    ensures
        pairs_from(a + seq!['&'] + b, from, cur) == pairs_from(a, from, cur) + query_pairs(b),
    decreases a.len() - from,
{
    let full = a + seq!['&'] + b;
    assert(full =~= (a + seq!['&']) + b);
    if from == a.len() {
        assert(full[from] == (a + seq!['&'])[a.len() as int]);
        assert(full[from] == '&');
        lemma_pairs_from_shift(a + seq!['&'], b, 0, Seq::<char>::empty());
        assert(pairs_from(full, from + 1, Seq::<char>::empty()) == query_pairs(b));
        assert(pairs_from(a, from, cur) == seq![split_pair(cur)]);
    } else {
        assert(full[from] == (a + seq!['&'])[from]);
        assert(full[from] == a[from]);
        if a[from] == '&' {
            lemma_pairs_concat(a, b, from + 1, Seq::<char>::empty());
            assert(seq![split_pair(cur)] + (pairs_from(a, from + 1, Seq::<char>::empty())
                + query_pairs(b)) =~= (seq![split_pair(cur)] + pairs_from(
                a,
                from + 1,
                Seq::<char>::empty(),
            )) + query_pairs(b));
        } else {
            lemma_pairs_concat(a, b, from + 1, cur.push(a[from]));
        }
    }
}

/// Splitting the rendering of one well-formed pair gives that pair back.
pub proof fn lemma_split_of_pair_text(p: (Seq<char>, Seq<char>))
    requires
        wf_pair(p),
    ensures
        split_pair(pair_text(p)) == p,
        !pair_text(p).contains('&'),
{
    if p.1.len() == 0 {
        assert forall|j: int| 0 <= j < p.0.len() implies !seq!['='].contains(p.0[j]) by {
            assert(p.0[j] != '=');
        }
        lemma_find_first_in_is(p.0, 0, seq!['='], p.0.len() as int);
        assert(split_pair(p.0) == (p.0, Seq::<char>::empty()));
        assert(split_pair(p.0).1 =~= p.1);
        assert(split_pair(pair_text(p)) == p);
    } else {
        let t = p.0 + seq!['='] + p.1;
        assert forall|j: int| 0 <= j < p.0.len() implies !seq!['='].contains(t[j]) by {
            assert(t[j] == (p.0 + seq!['='])[j]);
            assert(t[j] == p.0[j]);
            assert(p.0[j] != '=');
        }
        assert(t[p.0.len() as int] == (p.0 + seq!['='])[p.0.len() as int]);
        assert(seq!['='].contains(t[p.0.len() as int]));
        lemma_find_first_in_is(t, 0, seq!['='], p.0.len() as int);
        assert(t.subrange(0, p.0.len() as int) =~= p.0);
        assert(t.subrange(p.0.len() as int + 1, t.len() as int) =~= p.1);
        assert(!seq!['='].contains('&'));
        lemma_no_char_concat(p.0, seq!['='], '&');
        lemma_no_char_concat(p.0 + seq!['='], p.1, '&');
    }
}

/// Splitting the rendering of well-formed pairs gives the pairs back.
pub proof fn lemma_query_pairs_of_join(s: Seq<(Seq<char>, Seq<char>)>)
    requires
        s.len() > 0,
        forall|i: int| 0 <= i < s.len() ==> wf_pair(#[trigger] s[i]),
    ensures
        query_pairs(join_pairs(s)) == s,
    decreases s.len(),
{
    if s.len() == 1 {
        let t = pair_text(s[0]);
        lemma_split_of_pair_text(s[0]);
        lemma_pairs_from_no_amp(t, 0, Seq::<char>::empty());
        assert(Seq::<char>::empty() + t.skip(0) =~= t);
        assert(query_pairs(t) == seq![split_pair(t)]);
        assert(seq![s[0]] =~= s);
    } else {
        let d = s.drop_last();
        let last = s.last();
        assert(join_pairs(s) == join_pairs(d) + seq!['&'] + pair_text(last));
        lemma_pairs_concat(join_pairs(d), pair_text(last), 0, Seq::<char>::empty());
        assert(forall|i: int| 0 <= i < d.len() ==> wf_pair(#[trigger] d[i])) by {
            assert(forall|i: int| 0 <= i < d.len() ==> d[i] == s[i]);
        }
        lemma_query_pairs_of_join(d);
        let t = pair_text(last);
        lemma_split_of_pair_text(last);
        lemma_pairs_from_no_amp(t, 0, Seq::<char>::empty());
        assert(Seq::<char>::empty() + t.skip(0) =~= t);
        assert(query_pairs(t) == seq![last]);
        assert(d + seq![last] =~= s);
    }
}

/// A filter whose test accepts every element changes nothing.
pub proof fn lemma_filter_all(
    s: Seq<(Seq<char>, Seq<char>)>,
    pred: spec_fn((Seq<char>, Seq<char>)) -> bool,
)
    requires
        forall|i: int| 0 <= i < s.len() ==> pred(#[trigger] s[i]),
    ensures
        s.filter(pred) == s,
    decreases s.len(),
{
    reveal_with_fuel(Seq::<_>::filter, 2);
    if s.len() == 0 {
        assert(s.filter(pred) =~= s);
    } else {
        let d = s.drop_last();
        assert(forall|i: int| 0 <= i < d.len() ==> pred(#[trigger] d[i])) by {
            assert(forall|i: int| 0 <= i < d.len() ==> d[i] == s[i]);
        }
        lemma_filter_all(d, pred);
        assert(pred(s.last()));
        assert(s.filter(pred) =~= s);
    }
}

/// A character that stands nowhere in the split text and is not `&` stands
/// in no key and no value of its pairs.
pub proof fn lemma_pairs_from_avoid(s: Seq<char>, from: int, cur: Seq<char>, c: char)
    requires
        0 <= from <= s.len(),
        !cur.contains(c),
        forall|j: int| from <= j < s.len() ==> s[j] != c,
    ensures
        forall|i: int|
            0 <= i < pairs_from(s, from, cur).len() ==> !(#[trigger] pairs_from(s, from, cur)[i]).0.contains(c)
                && !pairs_from(s, from, cur)[i].1.contains(c),
    decreases s.len() - from,
{
    if from >= s.len() {
        lemma_split_pair_avoid(cur, c);
        let r = pairs_from(s, from, cur);
        assert forall|i: int|
            0 <= i < r.len() implies !(#[trigger] r[i]).0.contains(c) && !r[i].1.contains(c) by {
            assert(r[i] == split_pair(cur));
        }
    } else if s[from] == '&' {
        lemma_split_pair_avoid(cur, c);
        lemma_pairs_from_avoid(s, from + 1, Seq::<char>::empty(), c);
        let r = pairs_from(s, from, cur);
        let rest = pairs_from(s, from + 1, Seq::<char>::empty());
        assert forall|i: int|
            0 <= i < r.len() implies !(#[trigger] r[i]).0.contains(c) && !r[i].1.contains(c) by {
            if i == 0 {
                assert(r[0] == split_pair(cur));
            } else {
                assert(r[i] == rest[i - 1]);
            }
        }
    } else {
        assert(!cur.push(s[from]).contains(c)) by {
            assert forall|j: int| 0 <= j < cur.len() + 1 implies cur.push(s[from])[j] != c by {
                if j < cur.len() {
                    assert(cur.push(s[from])[j] == cur[j]);
                }
            }
        }
        lemma_pairs_from_avoid(s, from + 1, cur.push(s[from]), c);
        let r = pairs_from(s, from, cur);
        let r2 = pairs_from(s, from + 1, cur.push(s[from]));
        assert(r == r2);
        assert forall|i: int|
            0 <= i < r.len() implies !(#[trigger] r[i]).0.contains(c) && !r[i].1.contains(c) by {
            assert(r[i] == r2[i]);
        }
    }
}

/// Splitting a raw pair without `c` gives a pair without `c`.
pub proof fn lemma_split_pair_avoid(cur: Seq<char>, c: char)
    requires
        !cur.contains(c),
    ensures
        !split_pair(cur).0.contains(c),
        !split_pair(cur).1.contains(c),
{
    let i = find_first_in(cur, 0, seq!['=']);
    lemma_find_first_in(cur, 0, seq!['=']);
    if i < cur.len() {
        lemma_no_char_subrange(cur, 0, i, c);
        lemma_no_char_subrange(cur, i + 1, cur.len() as int, c);
    }
}

/// What the filter keeps was already there.
pub proof fn lemma_filter_subset(
    s: Seq<(Seq<char>, Seq<char>)>,
    pred: spec_fn((Seq<char>, Seq<char>)) -> bool,
)
    ensures
        forall|x: (Seq<char>, Seq<char>)| s.filter(pred).contains(x) ==> s.contains(x),
    decreases s.len(),
{
    reveal_with_fuel(Seq::<_>::filter, 2);
    if s.len() == 0 {
    } else {
        let d = s.drop_last();
        lemma_filter_subset(d, pred);
        assert forall|x: (Seq<char>, Seq<char>)| s.filter(pred).contains(x) implies s.contains(
            x,
        ) by {
            let f = s.filter(pred);
            let k = choose|k: int| 0 <= k < f.len() && f[k] == x;
            if pred(s.last()) {
                assert(f == d.filter(pred).push(s.last()));
                if k == f.len() - 1 {
                    assert(x == s.last());
                    assert(s[s.len() - 1] == x);
                } else {
                    assert(d.filter(pred)[k] == x);
                    assert(d.filter(pred).contains(x));
                    assert(d.contains(x));
                    let m = choose|m: int| 0 <= m < d.len() && d[m] == x;
                    assert(s[m] == x);
                }
            } else {
                assert(f == d.filter(pred));
                assert(d.filter(pred).contains(x));
                assert(d.contains(x));
                let m = choose|m: int| 0 <= m < d.len() && d[m] == x;
                assert(s[m] == x);
            }
        }
    }
}

/// A character that is neither `&` nor `=` and stands in no pair stands
/// nowhere in the rendering.
pub proof fn lemma_join_pairs_avoid(s: Seq<(Seq<char>, Seq<char>)>, c: char)
    requires
        c != '&',
        c != '=',
        forall|i: int|
            0 <= i < s.len() ==> !(#[trigger] s[i]).0.contains(c) && !s[i].1.contains(c),
    ensures
        !join_pairs(s).contains(c),
    decreases s.len(),
{
    if s.len() == 0 {
    } else if s.len() == 1 {
        lemma_pair_text_avoid(s[0], c);
    } else {
        let d = s.drop_last();
        assert(forall|i: int|
            0 <= i < d.len() ==> !(#[trigger] d[i]).0.contains(c) && !d[i].1.contains(c)) by {
            assert(forall|i: int| 0 <= i < d.len() ==> d[i] == s[i]);
        }
        lemma_join_pairs_avoid(d, c);
        lemma_pair_text_avoid(s.last(), c);
        assert(!seq!['&'].contains(c)) by {
            assert forall|j: int| 0 <= j < 1 implies seq!['&'][j] != c by {
                assert(seq!['&'][0] == '&');
            }
        }
        lemma_no_char_concat(join_pairs(d), seq!['&'], c);
        lemma_no_char_concat(join_pairs(d) + seq!['&'], pair_text(s.last()), c);
    }
}

/// The rendering of one pair avoids whatever the pair avoids, but for `=`.
pub proof fn lemma_pair_text_avoid(p: (Seq<char>, Seq<char>), c: char)
    requires
        c != '=',
        !p.0.contains(c),
        !p.1.contains(c),
    ensures
        !pair_text(p).contains(c),
{
    if p.1.len() > 0 {
        assert(!seq!['='].contains(c)) by {
            assert forall|j: int| 0 <= j < 1 implies seq!['='][j] != c by {
                assert(seq!['='][0] == '=');
            }
        }
        lemma_no_char_concat(p.0, seq!['='], c);
        lemma_no_char_concat(p.0 + seq!['='], p.1, c);
    }
}

/// The rendering of pairs that all hold something is never empty.
pub proof fn lemma_join_pairs_len(s: Seq<(Seq<char>, Seq<char>)>)
    requires
        s.len() > 0,
        forall|i: int| 0 <= i < s.len() ==> nonempty_pair(#[trigger] s[i]),
    ensures
        join_pairs(s).len() >= 1,
{
    if s.len() == 1 {
        assert(nonempty_pair(s[0]));
    } else {
        assert((join_pairs(s.drop_last()) + seq!['&']).len() >= 1);
    }
}

/// Reorderings hold the same elements.
pub proof fn lemma_permutation_contains(
    s: Seq<(Seq<char>, Seq<char>)>,
    t: Seq<(Seq<char>, Seq<char>)>,
)
    requires
        s.to_multiset() == t.to_multiset(),
    ensures
        forall|x: (Seq<char>, Seq<char>)| t.contains(x) ==> s.contains(x),
{
    broadcast use group_to_multiset_ensures;

    assert forall|x: (Seq<char>, Seq<char>)| t.contains(x) implies s.contains(x) by {
        assert(t.to_multiset().count(x) > 0);
    }
}

/// Renders pairs back into one `&`-separated text.
pub fn join_query(v: &Vec<(String, String)>) -> (r: String)
    ensures
        r@ == join_pairs(pairs_view(v@)),
{
    let mut out = String::new();
    let mut i: usize = 0;
    proof {
        assert(join_pairs(pairs_view(v@).take(0)) =~= Seq::<char>::empty());
    }
    while i < v.len()
        invariant
            i <= v@.len(),
            out@ == join_pairs(pairs_view(v@).take(i as int)),
        decreases v@.len() - i,
    {
        if i > 0 {
            out.append("&");
        }
        out.append(v[i].0.as_str());
        if v[i].1.as_str().unicode_len() > 0 {
            out.append("=");
            out.append(v[i].1.as_str());
        }
        proof {
            let pv = pairs_view(v@);
            assert(pv.take(i + 1).drop_last() =~= pv.take(i as int));
            assert(pv.take(i + 1).last() == pv[i as int]);
            reveal_strlit("&");
            reveal_strlit("=");
            if i == 0 {
                assert(pv.take(1)[0] == pv[0]);
                if pv[0].1.len() == 0 {
                    assert(out@ =~= pair_text(pv[0]));
                } else {
                    assert(out@ =~= pair_text(pv[0]));
                }
                assert(out@ == join_pairs(pv.take(1)));
            } else {
                assert(out@ =~= join_pairs(pv.take(i as int)) + seq!['&'] + pair_text(
                    pv[i as int],
                ));
            }
        }
        i = i + 1;
    }
    proof {
        assert(pairs_view(v@).take(v@.len() as int) =~= pairs_view(v@));
    }
    out
}

} // verus!
