//! In-memory deduplication cache of canonical URL keys.
//!
//! The cache is an ephemeral set, seeded at orchestrator startup from the
//! canonical URLs that already have a persisted result, so that a resumed
//! crawl never re-emits a result for an already-recorded URL. It is a
//! fast-path optimization; the store's uniqueness constraint remains the
//! final arbiter of at-most-one persisted result per canonical URL.

use crate::text::equal_str;
use vstd::prelude::*;

verus! {

/// A set of canonical URL keys, held without duplicates.
pub struct CacheManager {
    visited_results: Vec<String>,
}

impl CacheManager {
    /// The set of keys the cache holds.
    pub closed spec fn keys(&self) -> Set<Seq<char>> {
        self.key_seq().to_set()
    }

    /// The keys in insertion order, used to tie the stored vector to `keys`.
    pub closed spec fn key_seq(&self) -> Seq<Seq<char>> {
        self.visited_results@.map_values(|s: String| s@)
    }

    /// No key occurs twice.
    pub closed spec fn wf(&self) -> bool {
        self.key_seq().no_duplicates()
    }

    pub fn new() -> (r: Self)
        ensures
            r.wf(),
            r.keys() == Set::<Seq<char>>::empty(),
    {
        let r = Self { visited_results: Vec::new() };
        proof {
            assert(r.key_seq() =~= Seq::<Seq<char>>::empty());
            assert(r.keys() =~= Set::<Seq<char>>::empty());
        }
        r
    }

    /// How many distinct keys the cache holds.
    pub fn len(&self) -> (n: usize)
        requires
            self.wf(),
        ensures
            n == self.keys().len(),
    {
        proof {
            self.key_seq().unique_seq_to_set();
        }
        self.visited_results.len()
    }

    pub fn is_cached(&self, url: &str) -> (r: bool)
        ensures
            r == self.keys().contains(url@),
    {
        let mut i: usize = 0;
        while i < self.visited_results.len()
            invariant
                i <= self.visited_results.len(),
                forall|j: int| 0 <= j < i ==> self.key_seq()[j] != url@,
            decreases self.visited_results.len() - i,
        {
            if equal_str(&self.visited_results[i], url) {
                assert(self.key_seq()[i as int] == url@);
                return true;
            }
            i = i + 1;
        }
        assert(forall|j: int| 0 <= j < self.key_seq().len() ==> self.key_seq()[j] != url@);
        false
    }

    /// Inserts one canonical key. Re-inserting a present key leaves the cache
    /// unchanged, so its size never grows on a duplicate.
    pub fn cache(&mut self, url: String)
        requires
            old(self).wf(),
        ensures
            final(self).wf(),
            final(self).keys() == old(self).keys().insert(url@),
    {
        if self.is_cached(url.as_str()) {
            proof {
                assert(self.keys() =~= self.keys().insert(url@));
            }
            return;
        }
        let ghost pre = self.key_seq();
        proof {
            assert(!pre.to_set().contains(url@));
            assert(!pre.contains(url@));
        }
        self.visited_results.push(url);
        proof {
            assert(self.key_seq() =~= pre.push(url@));
            pre.lemma_push_to_set_commute(url@);
            assert(self.keys() =~= old(self).keys().insert(url@));
        }
    }

    /// Bulk-loads keys, typically the canonical URLs of all persisted results
    /// of the active crawl. Keys already present are not duplicated.
    pub fn extend(&mut self, urls: Vec<String>)
        requires
            old(self).wf(),
        ensures
            final(self).wf(),
            final(self).keys() == old(self).keys().union(urls@.map_values(|s: String| s@).to_set()),
    {
        let ghost all = urls@.map_values(|s: String| s@);
        let mut i: usize = 0;
        while i < urls.len()
            invariant
                i <= urls.len(),
                all == urls@.map_values(|s: String| s@),
                self.wf(),
                self.keys() == old(self).keys().union(all.take(i as int).to_set()),
            decreases urls.len() - i,
        {
            let u = urls[i].clone();
            self.cache(u);
            proof {
                assert(all.take(i + 1) =~= all.take(i as int).push(all[i as int]));
                all.take(i as int).lemma_push_to_set_commute(all[i as int]);
                assert(self.keys() =~= old(self).keys().union(all.take(i + 1).to_set()));
            }
            i = i + 1;
        }
        proof {
            assert(all.take(urls@.len() as int) =~= all);
        }
    }
}

} // verus!
