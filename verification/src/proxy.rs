//! Round-robin selection over a fixed proxy pool.

use vstd::prelude::*;

verus! {

/// Holds an immutable ordered list of proxy endpoints and a rotation cursor.
/// `get_next` cycles through the pool: over any `pool.len()` consecutive
/// calls each endpoint is returned exactly once, in construction order.
pub struct ProxyManager {
    proxies: Vec<String>,
    current: usize,
}

impl ProxyManager {
    /// The endpoints of the pool, in construction order.
    pub closed spec fn pool(&self) -> Seq<Seq<char>> {
        self.proxies@.map_values(|p: String| p@)
    }

    /// The index of the endpoint the next call returns.
    pub closed spec fn cursor(&self) -> int {
        self.current as int
    }

    /// The cursor always points into a non-empty pool.
    pub closed spec fn wf(&self) -> bool {
        if self.proxies@.len() == 0 {
            self.current == 0
        } else {
            (self.current as int) < self.proxies@.len()
        }
    }

    pub fn new(proxies: Vec<String>) -> (r: Self)
        ensures
            r.wf(),
            r.pool() == proxies@.map_values(|p: String| p@),
            r.cursor() == 0,
    {
        Self { proxies, current: 0 }
    }

    /// Returns `None` on an empty pool; otherwise returns the endpoint at the
    /// cursor and advances the cursor by one, modulo the pool size.
    pub fn get_next(&mut self) -> (r: Option<String>)
        requires
            old(self).wf(),
        ensures
            final(self).wf(),
            final(self).pool() == old(self).pool(),
            old(self).pool().len() == 0 ==> r is None && final(self).cursor() == old(self).cursor(),
            old(self).pool().len() > 0 ==> {
                &&& r matches Some(p) && p@ == old(self).pool()[old(self).cursor()]
                &&& final(self).cursor() == (old(self).cursor() + 1) % (old(self).pool().len() as int)
            },
    {
        if self.proxies.len() == 0 {
            return None;
        }
        let idx = self.current;
        self.current = (self.current + 1) % self.proxies.len();
        Some(self.proxies[idx].clone())
    }
}

} // verus!
