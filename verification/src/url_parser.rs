//! URL canonicalization.
//!
//! A raw URL is accepted when the `url` crate parses it as an absolute URL
//! with a host; its components are then extracted by a positional scan of
//! the original string, so each component is an exact substring of the
//! input. `normalize` produces the canonical string used as the dedup and
//! persistence key: scheme and host lowercased, the empty path written as
//! `/`, trailing slashes stripped, query parameters sorted by key, and the
//! fragment dropped.

use crate::qparams::join_pairs;
use crate::qparams::join_query;
use crate::qparams::nonempty_pair;
use crate::qparams::pairs_view;
use crate::qparams::query_pairs;
use crate::qparams::sort_pairs;
use crate::qparams::sort_query;
use crate::qparams::split_query;
use crate::qparams::lemma_sort_pairs_sorted;
use crate::text::find_first_in;
use crate::text::find_first_of;
use crate::text::lemma_find_first_in;
use crate::text::lower;
use crate::text::lower_str;
use crate::text::push_char;
use vstd::prelude::*;
use vstd::string::StrSliceExecFns;
use vstd::string::StringExecFns;

verus! {

/// The raw URL could not be read as an absolute URL with scheme and host.
#[derive(Debug, Clone, Copy, PartialEq, Eq)]
pub struct ParseError;

/// Whether the `url` crate accepts the string as an absolute URL with a
/// host; a function of the string alone.
pub uninterp spec fn url_accepts(s: Seq<char>) -> bool;

/// Relies on url::Url::parse and url::Url::host_str: whether the input
/// parses as an absolute URL that has a host. Url::parse returns a Result
/// and never panics, and its outcome depends on the input string alone.
#[verifier::external_body]
fn url_gate(raw: &str) -> (r: bool)
    ensures
        r == url_accepts(raw@),
{
    match url::Url::parse(raw) {
        Ok(u) => u.host_str().is_some(),
        Err(_) => false,
    }
}

/// Position of the first `:`, which ends the scheme.
pub open spec fn colon_pos(s: Seq<char>) -> int {
    find_first_in(s, 0, seq![':'])
}

/// Position where the host begins, after `://`.
pub open spec fn host_start(s: Seq<char>) -> int {
    colon_pos(s) + 3
}

/// Position one past the host: the first `/`, `?` or `#` after it.
pub open spec fn host_end(s: Seq<char>) -> int {
    find_first_in(s, host_start(s), seq!['/', '?', '#'])
}

/// Position one past the path: the first `?` or `#` after the host.
pub open spec fn path_end(s: Seq<char>) -> int {
    find_first_in(s, host_end(s), seq!['?', '#'])
}

/// Position where the fragment begins (the first `#` after the path), or
/// the end of the string.
pub open spec fn frag_start(s: Seq<char>) -> int {
    find_first_in(s, path_end(s), seq!['#'])
}

/// Whether the positional scan finds the shape `scheme://host…`: a
/// non-empty scheme before the first `:`, `//` after it, and a non-empty
/// host.
pub open spec fn scan_ok(s: Seq<char>) -> bool {
    let ci = colon_pos(s);
    &&& 1 <= ci
    &&& ci + 3 <= s.len()
    &&& s[ci + 1] == '/'
    &&& s[ci + 2] == '/'
    &&& host_end(s) > ci + 3
}

/// The scheme: everything before the first `:`.
pub open spec fn spec_scheme(s: Seq<char>) -> Seq<char> {
    s.subrange(0, colon_pos(s))
}

/// The host as written, from after `://` to the first `/`, `?` or `#`.
pub open spec fn spec_host(s: Seq<char>) -> Seq<char> {
    s.subrange(host_start(s), host_end(s))
}

/// The path as written, possibly empty.
pub open spec fn spec_path(s: Seq<char>) -> Seq<char> {
    s.subrange(host_end(s), path_end(s))
}

/// The query as written, with its leading `?`, or empty.
pub open spec fn spec_query(s: Seq<char>) -> Seq<char> {
    if path_end(s) < s.len() && s[path_end(s)] == '?' {
        s.subrange(path_end(s), frag_start(s))
    } else {
        Seq::<char>::empty()
    }
}

/// The fragment as written, with its leading `#`, or empty.
pub open spec fn spec_fragment(s: Seq<char>) -> Seq<char> {
    s.subrange(frag_start(s), s.len() as int)
}

/// Position of the last occurrence of `c`, or `-1`.
pub open spec fn rfind_char(s: Seq<char>, c: char) -> int
    decreases s.len(),
{
    if s.len() == 0 {
        -1
    } else if s[s.len() - 1] == c {
        s.len() - 1
    } else {
        rfind_char(s.drop_last(), c)
    }
}

/// The rightmost-two-labels split of a hostname into subdomain and
/// registrable domain: with two or more dots, everything before the
/// second-to-last dot is the subdomain and the rest the domain; otherwise
/// the subdomain is empty and the whole hostname is the domain. A
/// documented simplification, not a public-suffix-list lookup.
pub open spec fn spec_split_domain(h: Seq<char>) -> (Seq<char>, Seq<char>) {
    let p2 = rfind_char(h, '.');
    if p2 >= 0 {
        let p1 = rfind_char(h.subrange(0, p2), '.');
        if p1 >= 0 {
            (h.subrange(0, p1), h.subrange(p1 + 1, h.len() as int))
        } else {
            (Seq::<char>::empty(), h)
        }
    } else {
        (Seq::<char>::empty(), h)
    }
}

/// The non-empty `/`-separated segments of a path from `from` on, with
/// `cur` the part of the current segment already read.
pub open spec fn segs(s: Seq<char>, from: int, cur: Seq<char>) -> Seq<Seq<char>>
    decreases s.len() - from when 0 <= from <= s.len()
{
    if from >= s.len() {
        if cur.len() > 0 {
            seq![cur]
        } else {
            Seq::<Seq<char>>::empty()
        }
    } else if s[from] == '/' {
        if cur.len() > 0 {
            seq![cur] + segs(s, from + 1, Seq::<char>::empty())
        } else {
            segs(s, from + 1, Seq::<char>::empty())
        }
    } else {
        segs(s, from + 1, cur.push(s[from]))
    }
}

/// The non-empty `/`-separated segments of a path.
pub open spec fn path_segs(s: Seq<char>) -> Seq<Seq<char>> {
    segs(s, 0, Seq::<char>::empty())
}

/// The views of a vector of owned texts.
pub open spec fn texts_view(v: Seq<String>) -> Seq<Seq<char>> {
    v.map_values(|t: String| t@)
}

/// The path with every trailing slash removed, down to `/` at the least.
pub open spec fn strip_slashes(p: Seq<char>) -> Seq<char>
    decreases p.len(),
{
    if p.len() > 1 && p.last() == '/' {
        strip_slashes(p.drop_last())
    } else {
        p
    }
}

/// The canonical form of a path: empty becomes `/`, trailing slashes go.
pub open spec fn norm_path(p: Seq<char>) -> Seq<char> {
    if p.len() == 0 {
        seq!['/']
    } else {
        strip_slashes(p)
    }
}

/// The canonical form of a query: its pairs sorted by key and rejoined;
/// pairs empty on both sides are dropped, and so is a query that keeps no
/// pair at all.
pub open spec fn norm_query(q: Seq<char>) -> Seq<char> {
    if q.len() <= 1 {
        Seq::<char>::empty()
    } else {
        let ps = sort_pairs(query_pairs(q.skip(1)).filter(|p| nonempty_pair(p)));
        if ps.len() == 0 {
            Seq::<char>::empty()
        } else {
            seq!['?'] + join_pairs(ps)
        }
    }
}

/// The canonical string of the given components: lowercased scheme and
/// host, canonical path and query, no fragment.
pub open spec fn norm_parts(
    scheme: Seq<char>,
    host: Seq<char>,
    path: Seq<char>,
    query: Seq<char>,
) -> Seq<char> {
    lower(scheme) + seq![':', '/', '/'] + lower(host) + norm_path(path) + norm_query(query)
}

/// What `normalize_url` returns: the canonical string of a URL that parses
/// and scans, and the input unchanged otherwise.
pub open spec fn spec_normalize_url(s: Seq<char>) -> Seq<char> {
    if url_accepts(s) && scan_ok(s) {
        norm_parts(spec_scheme(s), spec_host(s), spec_path(s), spec_query(s))
    } else {
        s
    }
}

/// URL components held as exact substrings of the original string,
/// positionally derived from it.
#[derive(Debug, Clone)]
pub struct UrlRef {
    /// Full original URL.
    pub full_url: String,
    /// Scheme portion (e.g. `https`), as written.
    pub protocol: String,
    /// Subdomain portion (e.g. `blog`), by the rightmost-two-labels split.
    pub subdomain: String,
    /// Registrable-domain portion (e.g. `example.com`).
    pub domain: String,
    /// Hostname portion (e.g. `blog.example.com`), as written.
    pub hostname: String,
    /// Path portion (e.g. `/folder/page.html`), possibly empty.
    pub path: String,
    /// Query portion with its leading `?`, or empty.
    pub query: String,
    /// Fragment portion with its leading `#`, or empty.
    pub fragment: String,
    /// Number of non-empty path segments.
    pub depth: usize,
}

impl UrlRef {
    /// The fields are exactly what the positional scan of `full_url` gives.
    pub open spec fn wf(&self) -> bool {
        &&& url_accepts(self.full_url@)
        &&& scan_ok(self.full_url@)
        &&& self.protocol@ == spec_scheme(self.full_url@)
        &&& self.hostname@ == spec_host(self.full_url@)
        &&& self.path@ == spec_path(self.full_url@)
        &&& self.query@ == spec_query(self.full_url@)
        &&& self.fragment@ == spec_fragment(self.full_url@)
        &&& (self.subdomain@, self.domain@) == spec_split_domain(self.hostname@)
        &&& self.depth == path_segs(self.path@).len()
    }

    /// Parses a raw URL. Returns `Err` exactly when the `url` crate rejects
    /// the input or the positional scan finds no `scheme://host` shape.
    pub fn from_str(full_url: &str) -> (r: Result<UrlRef, ParseError>)
        ensures
            match r {
                Ok(u) => url_accepts(full_url@) && scan_ok(full_url@) && u.wf() && u.full_url@
                    == full_url@,
                Err(_) => !(url_accepts(full_url@) && scan_ok(full_url@)),
            },
    {
        let ghost s = full_url@;
        if !url_gate(full_url) {
            return Err(ParseError);
        }
        proof {
            reveal_strlit(":");
            reveal_strlit("/?#");
            reveal_strlit("?#");
            reveal_strlit("#");
            assert(":"@ =~= seq![':']);
            assert("/?#"@ =~= seq!['/', '?', '#']);
            assert("?#"@ =~= seq!['?', '#']);
            assert("#"@ =~= seq!['#']);
        }
        let n = full_url.unicode_len();
        let ci = find_first_of(full_url, 0, ":");
        proof {
            lemma_find_first_in(s, 0, seq![':']);
        }
        if ci < 1 || n < 3 || ci > n - 3 {
            return Err(ParseError);
        }
        if full_url.get_char(ci + 1) != '/' || full_url.get_char(ci + 2) != '/' {
            return Err(ParseError);
        }
        let hs = ci + 3;
        let he = find_first_of(full_url, hs, "/?#");
        proof {
            lemma_find_first_in(s, hs as int, seq!['/', '?', '#']);
        }
        if he == hs {
            return Err(ParseError);
        }
        let pe = find_first_of(full_url, he, "?#");
        proof {
            lemma_find_first_in(s, he as int, seq!['?', '#']);
        }
        let fs = find_first_of(full_url, pe, "#");
        proof {
            lemma_find_first_in(s, pe as int, seq!['#']);
        }
        let protocol = String::from_str(full_url.substring_char(0, ci));
        let hostname = String::from_str(full_url.substring_char(hs, he));
        let path = String::from_str(full_url.substring_char(he, pe));
        let query = if pe < n && full_url.get_char(pe) == '?' {
            String::from_str(full_url.substring_char(pe, fs))
        } else {
            String::new()
        };
        let fragment = String::from_str(full_url.substring_char(fs, n));
        let (subdomain, domain) = parse_domain(hostname.as_str());
        let segments = split_segments(path.as_str());
        let depth = segments.len();
        proof {
            assert(texts_view(segments@).len() == segments@.len());
        }
        Ok(
            UrlRef {
                full_url: String::from_str(full_url),
                protocol,
                subdomain,
                domain,
                hostname,
                path,
                query,
                fragment,
                depth,
            },
        )
    }

    /// An owned copy, equal field for field.
    pub fn duplicate(&self) -> (r: UrlRef)
        ensures
            r == *self,
    {
        UrlRef {
            full_url: self.full_url.clone(),
            protocol: self.protocol.clone(),
            subdomain: self.subdomain.clone(),
            domain: self.domain.clone(),
            hostname: self.hostname.clone(),
            path: self.path.clone(),
            query: self.query.clone(),
            fragment: self.fragment.clone(),
            depth: self.depth,
        }
    }

    /// The non-empty `/`-separated segments of the path, in order.
    pub fn path_segments(&self) -> (r: Vec<String>)
        ensures
            texts_view(r@) == path_segs(self.path@),
    {
        split_segments(self.path.as_str())
    }

    /// The canonical string of this URL: lowercased scheme and host, the
    /// empty path written `/`, trailing slashes stripped, query pairs
    /// sorted by key, fragment dropped.
    pub fn normalize(&self) -> (r: String)
        ensures
            r@ == norm_parts(self.protocol@, self.hostname@, self.path@, self.query@),
    {
        let mut out = lower_str(self.protocol.as_str());
        out.append("://");
        proof {
            reveal_strlit("://");
            assert("://"@ =~= seq![':', '/', '/']);
        }
        let host_l = lower_str(self.hostname.as_str());
        out.append(host_l.as_str());
        let ghost head = lower(self.protocol@) + seq![':', '/', '/'] + lower(self.hostname@);
        proof {
            assert(out@ =~= head);
        }
        let pl = self.path.as_str().unicode_len();
        if pl == 0 {
            out.append("/");
            proof {
                reveal_strlit("/");
                assert("/"@ =~= seq!['/']);
                assert(out@ =~= head + norm_path(self.path@));
            }
        } else {
            let mut e = pl;
            proof {
                assert(self.path@.take(pl as int) =~= self.path@);
            }
            while e > 1 && self.path.as_str().get_char(e - 1) == '/'
                invariant
                    1 <= e <= pl || (pl == 0 && e == 0),
                    pl == self.path@.len(),
                    strip_slashes(self.path@) == strip_slashes(self.path@.take(e as int)),
                decreases e,
            {
                proof {
                    assert(self.path@.take(e as int).last() == self.path@[e - 1]);
                    assert(self.path@.take(e as int).drop_last() =~= self.path@.take(e - 1));
                }
                e = e - 1;
            }
            out.append(self.path.as_str().substring_char(0, e));
            proof {
                assert(self.path@.take(e as int) =~= self.path@.subrange(0, e as int));
                assert(strip_slashes(self.path@.take(e as int)) == self.path@.take(e as int));
                assert(out@ =~= head + norm_path(self.path@));
            }
        }
        let ghost mid = head + norm_path(self.path@);
        let ql = self.query.as_str().unicode_len();
        if ql > 1 {
            let qs = self.query.as_str().substring_char(1, ql);
            proof {
                assert(qs@ =~= self.query@.skip(1));
            }
            let ps = split_query(qs);
            let sorted = sort_query(ps);
            let ghost spairs = sort_pairs(query_pairs(self.query@.skip(1)).filter(
                |p| nonempty_pair(p),
            ));
            proof {
                lemma_sort_pairs_sorted(query_pairs(self.query@.skip(1)).filter(
                    |p| nonempty_pair(p),
                ));
                assert(pairs_view(sorted@) == spairs);
                assert(sorted@.len() == pairs_view(sorted@).len());
            }
            if sorted.len() > 0 {
                out.append("?");
                proof {
                    reveal_strlit("?");
                    assert("?"@ =~= seq!['?']);
                }
                let joined = join_query(&sorted);
                out.append(joined.as_str());
                proof {
                    assert(out@ =~= mid + (seq!['?'] + join_pairs(spairs)));
                    assert(out@ =~= mid + norm_query(self.query@));
                }
            } else {
                proof {
                    assert(norm_query(self.query@) =~= Seq::<char>::empty());
                    assert(out@ =~= mid + norm_query(self.query@));
                }
            }
        } else {
            proof {
                assert(norm_query(self.query@) =~= Seq::<char>::empty());
                assert(out@ =~= mid + norm_query(self.query@));
            }
        }
        proof {
            assert(out@ =~= norm_parts(self.protocol@, self.hostname@, self.path@, self.query@));
        }
        out
    }
}

/// Splits a hostname into subdomain and registrable domain by the
/// rightmost-two-labels heuristic.
pub fn parse_domain(hostname: &str) -> (r: (String, String))
    ensures
        (r.0@, r.1@) == spec_split_domain(hostname@),
{
    let n = hostname.unicode_len();
    proof {
        assert(hostname@.take(n as int) =~= hostname@);
    }
    let p2 = match rfind_exec(hostname, n, '.') {
        Some(i) => i,
        None => {
            return (String::new(), String::from_str(hostname));
        },
    };
    proof {
        assert(hostname@.take(p2 as int) =~= hostname@.subrange(0, p2 as int));
    }
    let p1 = match rfind_exec(hostname, p2, '.') {
        Some(i) => i,
        None => {
            return (String::new(), String::from_str(hostname));
        },
    };
    (
        String::from_str(hostname.substring_char(0, p1)),
        String::from_str(hostname.substring_char(p1 + 1, n)),
    )
}

/// Position of the last `c` strictly before `upto`, or `None`.
fn rfind_exec(s: &str, upto: usize, c: char) -> (r: Option<usize>)
    requires
        upto <= s@.len(),
    ensures
        match r {
            Some(i) => i < upto && rfind_char(s@.take(upto as int), c) == i as int,
            None => rfind_char(s@.take(upto as int), c) == -1,
        },
{
    let mut e = upto;
    while e > 0
        invariant
            e <= upto <= s@.len(),
            rfind_char(s@.take(upto as int), c) == rfind_char(s@.take(e as int), c),
        decreases e,
    {
        proof {
            assert(s@.take(e as int).last() == s@[e - 1]);
            assert(s@.take(e as int).drop_last() =~= s@.take(e - 1));
        }
        if s.get_char(e - 1) == c {
            proof {
                assert(rfind_char(s@.take(e as int), c) == e - 1);
            }
            return Some(e - 1);
        }
        e = e - 1;
    }
    proof {
        assert(s@.take(0) =~= Seq::<char>::empty());
    }
    None
}

/// Splits a path into its non-empty `/`-separated segments.
pub fn split_segments(s: &str) -> (r: Vec<String>)
    ensures
        texts_view(r@) == path_segs(s@),
{
    let n = s.unicode_len();
    let mut out: Vec<String> = Vec::new();
    let mut cur = String::new();
    let mut i: usize = 0;
    proof {
        assert(texts_view(out@) =~= Seq::<Seq<char>>::empty());
        assert(Seq::<Seq<char>>::empty() + path_segs(s@) =~= path_segs(s@));
    }
    while i < n
        invariant
            i <= n,
            n == s@.len(),
            path_segs(s@) == texts_view(out@) + segs(s@, i as int, cur@),
        decreases n - i,
    {
        let c = s.get_char(i);
        let ghost prev_cur = cur@;
        let ghost prev_out = texts_view(out@);
        if c == '/' {
            if cur.as_str().unicode_len() > 0 {
                out.push(cur);
                cur = String::new();
                proof {
                    assert(texts_view(out@) =~= prev_out.push(prev_cur));
                    assert(prev_out.push(prev_cur) + segs(s@, i + 1, Seq::<char>::empty()) =~=
                        prev_out + (seq![prev_cur] + segs(s@, i + 1, Seq::<char>::empty())));
                }
            } else {
                proof {
                    assert(cur@ =~= Seq::<char>::empty());
                }
                cur = String::new();
            }
        } else {
            push_char(&mut cur, c);
        }
        i = i + 1;
    }
    if cur.as_str().unicode_len() > 0 {
        let ghost prev_out = texts_view(out@);
        let ghost last_cur = cur@;
        out.push(cur);
        proof {
            assert(texts_view(out@) =~= prev_out.push(last_cur));
            assert(segs(s@, n as int, last_cur) =~= seq![last_cur]);
            assert(prev_out.push(last_cur) =~= prev_out + seq![last_cur]);
        }
    } else {
        proof {
            assert(segs(s@, n as int, cur@) =~= Seq::<Seq<char>>::empty());
            assert(texts_view(out@) + Seq::<Seq<char>>::empty() =~= texts_view(out@));
        }
    }
    out
}

/// The canonical string of a raw URL, or the input unchanged when it does
/// not parse as an absolute URL.
pub fn normalize_url(url: &str) -> (r: String)
    ensures
        r@ == spec_normalize_url(url@),
{
    match UrlRef::from_str(url) {
        Ok(u) => u.normalize(),
        Err(_) => String::from_str(url),
    }
}

} // verus!
