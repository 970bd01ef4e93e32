//! Crawl configuration: the crawl's name, start URLs, field selectors and
//! fetch limits, with the merge rules for configuration inheritance and the
//! overrides the command line applies.

use crate::qparams::pairs_view;
use crate::text::equal_str;
use vstd::prelude::*;
use vstd::string::StrSliceExecFns;
use vstd::string::StringExecFns;

verus! {

/// How one field is located in a page: a bare selector string, or a
/// selector together with an attribute to read.
#[derive(Debug)]
pub enum SelectorConfig {
    Simple(String),
    Advanced { selector: String, attr: Option<String> },
}

impl SelectorConfig {
    /// The selector string an extraction engine is queried with.
    pub open spec fn query_view(self) -> Seq<char> {
        match self {
            SelectorConfig::Simple(s) => s@,
            SelectorConfig::Advanced { selector, .. } => selector@,
        }
    }

    pub fn to_query_string(&self) -> (r: String)
        ensures
            r@ == self.query_view(),
    {
        match self {
            SelectorConfig::Simple(s) => s.clone(),
            SelectorConfig::Advanced { selector, .. } => selector.clone(),
        }
    }
}

impl Default for SelectorConfig {
    /// An empty bare selector.
    fn default() -> (r: Self)
        ensures
            r.query_view() == Seq::<char>::empty(),
            r matches SelectorConfig::Simple(s) && s@ == Seq::<char>::empty(),
    {
        SelectorConfig::Simple(String::new())
    }
}

/// One crawl's configuration surface.
#[derive(Debug)]
pub struct SpiderConfig {
    /// Crawl name; a valid configuration has a non-empty one.
    pub name: String,
    /// Start URLs; a valid configuration has at least one.
    pub start_urls: Vec<String>,
    /// Field name to selector, one entry per field name.
    pub selectors: Vec<(String, SelectorConfig)>,
    /// Concurrency hint for the fetcher.
    pub concurrency: usize,
    /// Polite delay between requests, in milliseconds.
    pub delay_ms: u64,
    /// Whether the fetcher honors robots.txt.
    pub respect_robots: bool,
    /// Hosts or paths the fetcher must not follow.
    pub blacklist: Vec<String>,
    /// Hosts or paths the fetcher may follow exclusively, when non-empty.
    pub whitelist: Vec<String>,
    /// Depth bound for the traversal, if any.
    pub max_depth: Option<usize>,
    /// Path of a parent configuration file to inherit from, if any.
    pub extends: Option<String>,
}

impl SpiderConfig {
    /// What the loader checks before the orchestrator may see the
    /// configuration: a non-empty name and a non-empty start-URL list.
    pub fn validate(&self) -> (r: bool)
        ensures
            r == (self.name@.len() > 0 && self.start_urls@.len() > 0),
    {
        self.name.as_str().unicode_len() > 0 && self.start_urls.len() > 0
    }
}

impl Default for SpiderConfig {
    /// Everything empty, zero, off and unset.
    fn default() -> (r: Self)
        ensures
            r.name@ == Seq::<char>::empty(),
            r.start_urls@ == Seq::<String>::empty(),
            r.selectors@ == Seq::<(String, SelectorConfig)>::empty(),
            r.concurrency == 0,
            r.delay_ms == 0,
            !r.respect_robots,
            r.blacklist@ == Seq::<String>::empty(),
            r.whitelist@ == Seq::<String>::empty(),
            r.max_depth is None,
            r.extends is None,
    {
        SpiderConfig {
            name: String::new(),
            start_urls: Vec::new(),
            selectors: Vec::new(),
            concurrency: 0,
            delay_ms: 0,
            respect_robots: false,
            blacklist: Vec::new(),
            whitelist: Vec::new(),
            max_depth: None,
            extends: None,
        }
    }
}

/// The concurrency a configuration file gets when it names none.
pub fn default_concurrency() -> (r: usize)
    ensures
        r == 1,
{
    1
}

/// The delay a configuration file gets when it names none.
pub fn default_delay() -> (r: u64)
    ensures
        r == 0,
{
    0
}

/// The position of a field name among selector entries, or the end.
pub open spec fn sel_pos(s: Seq<(String, SelectorConfig)>, key: Seq<char>, i: int) -> int
    decreases s.len() - i when 0 <= i <= s.len()
{
    if i >= s.len() {
        i
    } else if s[i].0@ == key {
        i
    } else {
        sel_pos(s, key, i + 1)
    }
}

/// Sets the entry for a field name, replacing an entry with that name or
/// appending a new one.
pub open spec fn sel_upsert(
    s: Seq<(String, SelectorConfig)>,
    p: (String, SelectorConfig),
) -> Seq<(String, SelectorConfig)> {
    let k = sel_pos(s, p.0@, 0);
    if k < s.len() {
        s.update(k, p)
    } else {
        s.push(p)
    }
}

/// The child's selector entries folded into the parent's, in order.
pub open spec fn spec_merge_selectors(
    parent: Seq<(String, SelectorConfig)>,
    child: Seq<(String, SelectorConfig)>,
) -> Seq<(String, SelectorConfig)>
    decreases child.len(),
{
    if child.len() == 0 {
        parent
    } else {
        spec_merge_selectors(sel_upsert(parent, child[0]), child.skip(1))
    }
}

/// Sets one selector entry in place.
fn upsert_selector(out: &mut Vec<(String, SelectorConfig)>, p: (String, SelectorConfig))
    ensures
        final(out)@ == sel_upsert(old(out)@, p),
{
    let ghost pv = out@;
    let n = out.len();
    let mut i: usize = 0;
    loop
        invariant_except_break
            i <= n,
            n == out@.len(),
            pv == out@,
            sel_pos(pv, p.0@, 0) == sel_pos(pv, p.0@, i as int),
        ensures
            i <= n,
            n == out@.len(),
            pv == out@,
            sel_pos(pv, p.0@, 0) == i as int,
            i < n ==> pv[i as int].0@ == p.0@,
        decreases n - i,
    {
        if i == n {
            break;
        }
        if equal_str(out[i].0.as_str(), p.0.as_str()) {
            break;
        }
        i = i + 1;
    }
    if i < n {
        out.remove(i);
        out.insert(i, p);
        proof {
            assert(out@ =~= pv.update(i as int, p));
        }
    } else {
        out.push(p);
    }
}

/// Overlays a child configuration on the parent it extends: a child field
/// that is set (non-empty, non-default) replaces the parent's; the child's
/// selector entries are folded in one by one; the merged configuration
/// extends nothing further.
pub fn merge_configs(parent: SpiderConfig, child: SpiderConfig) -> (r: SpiderConfig)
    ensures
        r.name@ == if child.name@.len() > 0 {
            child.name@
        } else {
            parent.name@
        },
        r.start_urls@ == if child.start_urls@.len() > 0 {
            child.start_urls@
        } else {
            parent.start_urls@
        },
        r.concurrency == if child.concurrency != 1 {
            child.concurrency
        } else {
            parent.concurrency
        },
        r.delay_ms == if child.delay_ms != 0 {
            child.delay_ms
        } else {
            parent.delay_ms
        },
        r.respect_robots == (parent.respect_robots || child.respect_robots),
        r.blacklist@ == if child.blacklist@.len() > 0 {
            child.blacklist@
        } else {
            parent.blacklist@
        },
        r.whitelist@ == if child.whitelist@.len() > 0 {
            child.whitelist@
        } else {
            parent.whitelist@
        },
        r.max_depth == if child.max_depth is Some {
            child.max_depth
        } else {
            parent.max_depth
        },
        r.selectors@ == spec_merge_selectors(parent.selectors@, child.selectors@),
        r.extends is None,
{
    let mut out = parent;
    let SpiderConfig {
        name: c_name,
        start_urls: c_start,
        selectors: c_sel,
        concurrency: c_conc,
        delay_ms: c_delay,
        respect_robots: c_robots,
        blacklist: c_black,
        whitelist: c_white,
        max_depth: c_depth,
        extends: _c_extends,
    } = child;
    if c_name.as_str().unicode_len() > 0 {
        out.name = c_name;
    }
    if c_start.len() > 0 {
        out.start_urls = c_start;
    }
    if c_conc != 1 {
        out.concurrency = c_conc;
    }
    if c_delay != 0 {
        out.delay_ms = c_delay;
    }
    if c_robots {
        out.respect_robots = true;
    }
    if c_black.len() > 0 {
        out.blacklist = c_black;
    }
    if c_white.len() > 0 {
        out.whitelist = c_white;
    }
    if c_depth.is_some() {
        out.max_depth = c_depth;
    }
    let mut rest = c_sel;
    while rest.len() > 0
        invariant
            spec_merge_selectors(parent.selectors@, child.selectors@) == spec_merge_selectors(
                out.selectors@,
                rest@,
            ),
            out.name@ == if child.name@.len() > 0 {
                child.name@
            } else {
                parent.name@
            },
            out.start_urls@ == if child.start_urls@.len() > 0 {
                child.start_urls@
            } else {
                parent.start_urls@
            },
            out.concurrency == if child.concurrency != 1 {
                child.concurrency
            } else {
                parent.concurrency
            },
            out.delay_ms == if child.delay_ms != 0 {
                child.delay_ms
            } else {
                parent.delay_ms
            },
            out.respect_robots == (parent.respect_robots || child.respect_robots),
            out.blacklist@ == if child.blacklist@.len() > 0 {
                child.blacklist@
            } else {
                parent.blacklist@
            },
            out.whitelist@ == if child.whitelist@.len() > 0 {
                child.whitelist@
            } else {
                parent.whitelist@
            },
            out.max_depth == if child.max_depth is Some {
                child.max_depth
            } else {
                parent.max_depth
            },
            out.extends == parent.extends,
        decreases rest@.len(),
    {
        let ghost rv = rest@;
        let p = rest.remove(0);
        upsert_selector(&mut out.selectors, p);
        proof {
            assert(rest@ =~= rv.skip(1));
        }
    }
    out.extends = None;
    out
}

/// Applies command-line overrides to a loaded configuration: an explicit
/// URL replaces the start list, the robots flag can only be switched on,
/// and a delay or a non-default concurrency replaces the configured one.
pub fn apply_overrides(
    config: SpiderConfig,
    url: Option<String>,
    respect_robots: bool,
    delay: Option<u64>,
    concurrency: usize,
) -> (r: SpiderConfig)
    ensures
        r.start_urls@ == (match url {
            Some(u) => seq![u],
            None => config.start_urls@,
        }),
        r.respect_robots == (config.respect_robots || respect_robots),
        r.delay_ms == (match delay {
            Some(d) => d,
            None => config.delay_ms,
        }),
        r.concurrency == if concurrency != 1 {
            concurrency
        } else {
            config.concurrency
        },
        r.name@ == config.name@,
        r.selectors@ == config.selectors@,
        r.blacklist@ == config.blacklist@,
        r.whitelist@ == config.whitelist@,
        r.max_depth == config.max_depth,
        r.extends == config.extends,
{
    let mut out = config;
    match url {
        Some(u) => {
            let mut one: Vec<String> = Vec::new();
            one.push(u);
            out.start_urls = one;
            proof {
                assert(out.start_urls@ =~= seq![u]);
            }
        },
        None => {},
    }
    if respect_robots {
        out.respect_robots = true;
    }
    match delay {
        Some(d) => {
            out.delay_ms = d;
        },
        None => {},
    }
    if concurrency != 1 {
        out.concurrency = concurrency;
    }
    out
}

/// The selectors the orchestrator queries with: the configured entries, or
/// the page title alone when none are configured.
pub fn effective_selectors(selectors: Vec<(String, SelectorConfig)>) -> (r: Vec<(String, String)>)
    ensures
        selectors@.len() == 0 ==> pairs_view(r@) == seq![("title"@, "title"@)],
        selectors@.len() > 0 ==> pairs_view(r@) == selectors@.map_values(
            |p: (String, SelectorConfig)| (p.0@, p.1.query_view()),
        ),
{
    let mut out: Vec<(String, String)> = Vec::new();
    if selectors.len() == 0 {
        out.push((String::from_str("title"), String::from_str("title")));
        proof {
            assert(pairs_view(out@) =~= seq![("title"@, "title"@)]);
        }
        return out;
    }
    let ghost sv = selectors@;
    let mut rest = selectors;
    while rest.len() > 0
        invariant
            sv.len() > 0,
            rest@.len() <= sv.len(),
            rest@ == sv.skip(sv.len() - rest@.len()),
            pairs_view(out@) == sv.take(sv.len() - rest@.len()).map_values(
                |p: (String, SelectorConfig)| (p.0@, p.1.query_view()),
            ),
        decreases rest@.len(),
    {
        let ghost done = sv.len() - rest@.len();
        let ghost pre = pairs_view(out@);
        let p = rest.remove(0);
        let q = p.1.to_query_string();
        out.push((p.0, q));
        proof {
            assert(sv.skip(done)[0] == sv[done]);
            assert(rest@ =~= sv.skip(done + 1));
            assert(pairs_view(out@) =~= pre.push((sv[done].0@, sv[done].1.query_view())));
            assert(pairs_view(out@) =~= sv.take(done + 1).map_values(
                |p: (String, SelectorConfig)| (p.0@, p.1.query_view()),
            ));
        }
    }
    proof {
        assert(sv.take(sv.len() as int) =~= sv);
    }
    out
}

} // verus!
