//! The crawl orchestrator.
//!
//! The orchestrator moves `Idle → Seeding → Running` and ends in
//! `Completed`, `Cancelled` or `Failed`. An outer runtime drives it: it
//! feeds each fetcher event to `handle_event`, performs the returned
//! emission on the status sink, checks for cancellation at the top of each
//! iteration, and reports a persistence failure of the durable backend
//! through `fail`. For each fetched page, in arrival order: the URL is
//! canonicalized (a malformed URL skips that one event), a canonical key
//! already in the dedup cache skips the page, the configured fields are
//! extracted, the result is persisted idempotently under the canonical key,
//! the key enters the cache, and the key is handed back for the status
//! sink.

use crate::cache::CacheManager;
use crate::extract::extract_fields;
use crate::extract::spec_extract;
use crate::proxy::ProxyManager;
use crate::qparams::pairs_view;
use crate::state::result_urls_from;
use crate::state::spec_add_all;
use crate::state::table_insert;
use crate::state::StateManager;
use crate::url_parser::scan_ok;
use crate::url_parser::spec_normalize_url;
use crate::url_parser::url_accepts;
use crate::url_parser::UrlRef;
use vstd::prelude::*;
use vstd::string::StringExecFns;

verus! {

/// Where the run stands.
#[derive(Debug, Clone, Copy, PartialEq, Eq, Structural)]
pub enum CrawlStatus {
    Idle,
    Seeding,
    Running,
    /// The fetcher's event stream closed naturally.
    Completed,
    /// The cancellation signal fired; no further events are taken.
    Cancelled,
    /// A persistence error or a fetcher-level fatal error ended the run.
    Failed,
}

/// One event from the page fetcher's stream.
pub enum FetchEvent {
    /// A fetched page: its URL and its HTML.
    Page(String, String),
    /// The stream closed naturally: the traversal is complete.
    Closed,
    /// The fetcher failed fatally.
    Failed,
}

/// What one event led to.
pub enum EventOutcome {
    /// The page's URL did not parse; that one event was skipped.
    Skipped,
    /// The canonical key was in the dedup cache; the page was skipped.
    Duplicate,
    /// A result is persisted under this canonical URL; the runtime should
    /// emit it on the status sink, without blocking.
    Persisted(String),
    /// The run is over.
    Finished,
}

/// The orchestrator: the store model, the dedup cache, the proxy rotation
/// and the run status for one crawl.
pub struct Crawler {
    /// The relational model the durable backend mirrors.
    pub state_manager: StateManager,
    /// Round-robin proxy rotation, when a pool was given.
    pub proxy_manager: Option<ProxyManager>,
    /// The canonical keys already persisted or seen this run.
    pub cache_manager: CacheManager,
    /// The crawl this orchestrator drives.
    pub crawl_id: i64,
    pub status: CrawlStatus,
}

impl Crawler {
    pub open spec fn wf(&self) -> bool {
        &&& self.state_manager.wf()
        &&& self.cache_manager.wf()
        &&& match self.proxy_manager {
            Some(p) => p.wf(),
            None => true,
        }
    }

    /// A fresh orchestrator in `Idle`, with an empty dedup cache and a
    /// rotator over the pool when one is given.
    pub fn new(state_manager: StateManager, crawl_id: i64, proxies: Vec<String>) -> (r: Self)
        requires
            state_manager.wf(),
        ensures
            r.wf(),
            r.state_manager == state_manager,
            r.crawl_id == crawl_id,
            r.status == CrawlStatus::Idle,
            r.cache_manager.keys() == Set::<Seq<char>>::empty(),
            proxies@.len() == 0 ==> r.proxy_manager is None,
            proxies@.len() > 0 ==> (r.proxy_manager matches Some(p) && p.pool() == proxies@
                .map_values(|s: String| s@) && p.cursor() == 0),
    {
        let proxy_manager = if proxies.len() == 0 {
            None
        } else {
            Some(ProxyManager::new(proxies))
        };
        Crawler {
            state_manager,
            proxy_manager,
            cache_manager: CacheManager::new(),
            crawl_id,
            status: CrawlStatus::Idle,
        }
    }

    /// Seeding: on a fresh run the start URL enters the frontier at depth
    /// zero; either way the dedup cache is seeded from the crawl's
    /// persisted result URLs, so a resumed crawl never re-emits a result
    /// for an already-recorded URL. Ends `Running`.
    pub fn seed(&mut self, start_url: &str, resume: bool)
        requires
            old(self).wf(),
            old(self).status == CrawlStatus::Idle,
            old(self).state_manager.frontier_view().len() + 1 < 0x7fff_ffff,
        ensures
            final(self).wf(),
            final(self).status == CrawlStatus::Running,
            final(self).cache_manager.keys() == old(self).cache_manager.keys().union(
                result_urls_from(
                    old(self).state_manager.results_view(),
                    old(self).crawl_id,
                    0,
                ).to_set(),
            ),
            final(self).state_manager.frontier_view() == if resume {
                old(self).state_manager.frontier_view()
            } else {
                spec_add_all(
                    old(self).state_manager.frontier_view(),
                    old(self).crawl_id,
                    seq![(start_url@, 0int)],
                )
            },
            final(self).state_manager.results_view() == old(self).state_manager.results_view(),
            final(self).state_manager.crawls_view() == old(self).state_manager.crawls_view(),
            final(self).crawl_id == old(self).crawl_id,
            final(self).proxy_manager == old(self).proxy_manager,
    {
        self.status = CrawlStatus::Seeding;
        let visited = self.state_manager.get_visited_urls(self.crawl_id);
        self.cache_manager.extend(visited);
        if !resume {
            let mut seedv: Vec<(String, usize)> = Vec::new();
            seedv.push((String::from_str(start_url), 0));
            proof {
                assert(seedv@.map_values(|p: (String, usize)| (p.0@, p.1 as int)) =~= seq![
                    (start_url@, 0int),
                ]);
            }
            self.state_manager.add_to_frontier(self.crawl_id, seedv);
        }
        self.status = CrawlStatus::Running;
    }

    /// Applies one fetcher event, in arrival order. A page whose URL does
    /// not parse is skipped; a page whose canonical key is cached is
    /// skipped; otherwise its extracted fields are persisted idempotently
    /// under the canonical key, the key enters the cache, and the key is
    /// returned for the status sink. `Closed` completes the run and
    /// `Failed` fails it.
    pub fn handle_event(&mut self, ev: FetchEvent, selectors: &Vec<(String, String)>) -> (r:
        EventOutcome)
        requires
            old(self).wf(),
            old(self).status == CrawlStatus::Running,
            old(self).state_manager.results_view().len() + 1 < 0x7fff_ffff,
        ensures
            final(self).wf(),
            final(self).crawl_id == old(self).crawl_id,
            final(self).proxy_manager == old(self).proxy_manager,
            final(self).state_manager.crawls_view() == old(self).state_manager.crawls_view(),
            final(self).state_manager.frontier_view() == old(self).state_manager.frontier_view(),
            match ev {
                FetchEvent::Page(url, html) => {
                    &&& final(self).status == CrawlStatus::Running
                    &&& if !(url_accepts(url@) && scan_ok(url@)) {
                        &&& r is Skipped
                        &&& final(self).state_manager.results_view() == old(
                            self,
                        ).state_manager.results_view()
                        &&& final(self).cache_manager.keys() == old(self).cache_manager.keys()
                    } else if old(self).cache_manager.keys().contains(spec_normalize_url(url@)) {
                        &&& r is Duplicate
                        &&& final(self).state_manager.results_view() == old(
                            self,
                        ).state_manager.results_view()
                        &&& final(self).cache_manager.keys() == old(self).cache_manager.keys()
                    } else {
                        &&& (r matches EventOutcome::Persisted(u) && u@ == spec_normalize_url(
                            url@,
                        ))
                        &&& final(self).state_manager.results_view() == table_insert(
                            old(self).state_manager.results_view(),
                            (old(self).crawl_id, spec_normalize_url(url@)),
                            spec_extract(html@, pairs_view(selectors@)),
                        )
                        &&& final(self).cache_manager.keys() == old(
                            self,
                        ).cache_manager.keys().insert(spec_normalize_url(url@))
                    }
                },
                FetchEvent::Closed => {
                    &&& r is Finished
                    &&& final(self).status == CrawlStatus::Completed
                    &&& final(self).state_manager.results_view() == old(
                        self,
                    ).state_manager.results_view()
                    &&& final(self).cache_manager.keys() == old(self).cache_manager.keys()
                },
                FetchEvent::Failed => {
                    &&& r is Finished
                    &&& final(self).status == CrawlStatus::Failed
                    &&& final(self).state_manager.results_view() == old(
                        self,
                    ).state_manager.results_view()
                    &&& final(self).cache_manager.keys() == old(self).cache_manager.keys()
                },
            },
    {
        match ev {
            FetchEvent::Page(url, html) => {
                match UrlRef::from_str(url.as_str()) {
                    Err(_) => EventOutcome::Skipped,
                    Ok(u) => {
                        let key = u.normalize();
                        proof {
                            assert(key@ == spec_normalize_url(url@));
                        }
                        if self.cache_manager.is_cached(key.as_str()) {
                            EventOutcome::Duplicate
                        } else {
                            let data = extract_fields(html.as_str(), selectors);
                            self.state_manager.save_result(self.crawl_id, key.as_str(), data);
                            self.cache_manager.cache(key.clone());
                            EventOutcome::Persisted(key)
                        }
                    },
                }
            },
            FetchEvent::Closed => {
                self.status = CrawlStatus::Completed;
                EventOutcome::Finished
            },
            FetchEvent::Failed => {
                self.status = CrawlStatus::Failed;
                EventOutcome::Finished
            },
        }
    }

    /// Cancellation is cooperative: the run ends `Cancelled` and no further
    /// events are taken; work already applied stays as it is.
    pub fn cancel(&mut self)
        requires
            old(self).wf(),
            old(self).status == CrawlStatus::Running,
        ensures
            final(self).wf(),
            final(self).status == CrawlStatus::Cancelled,
            final(self).state_manager == old(self).state_manager,
            final(self).cache_manager == old(self).cache_manager,
            final(self).proxy_manager == old(self).proxy_manager,
            final(self).crawl_id == old(self).crawl_id,
    {
        self.status = CrawlStatus::Cancelled;
    }

    /// A persistence error of the durable backend is fatal to the run: it
    /// ends `Failed`, and results already persisted stay valid.
    pub fn fail(&mut self)
        requires
            old(self).wf(),
            old(self).status == CrawlStatus::Running,
        ensures
            final(self).wf(),
            final(self).status == CrawlStatus::Failed,
            final(self).state_manager == old(self).state_manager,
            final(self).cache_manager == old(self).cache_manager,
            final(self).proxy_manager == old(self).proxy_manager,
            final(self).crawl_id == old(self).crawl_id,
    {
        self.status = CrawlStatus::Failed;
    }
}

} // verus!
