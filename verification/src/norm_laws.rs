//! Laws of URL canonicalization: normalization is insensitive to a
//! trailing slash, to query-parameter order, and to scheme and host case,
//! and normalizing twice gives the same string as normalizing once.

use crate::qparams::distinct_keys;
use crate::qparams::join_pairs;
use crate::qparams::lemma_filter_all;
use crate::qparams::lemma_filter_subset;
use crate::qparams::lemma_join_pairs_avoid;
use crate::qparams::lemma_join_pairs_len;
use crate::qparams::lemma_no_char_concat;
use crate::qparams::lemma_no_char_subrange;
use crate::qparams::lemma_pairs_from_avoid;
use crate::qparams::lemma_pairs_from_wf;
use crate::qparams::lemma_permutation_contains;
use crate::qparams::lemma_query_pairs_of_join;
use crate::qparams::lemma_sort_pairs_of_sorted;
use crate::qparams::lemma_sort_pairs_permutation;
use crate::qparams::lemma_sort_pairs_sorted;
use crate::qparams::nonempty_pair;
use crate::qparams::query_pairs;
use crate::qparams::sort_pairs;
use crate::qparams::wf_pair;
use crate::text::lemma_find_first_in;
use crate::text::lemma_find_first_in_is;
use crate::text::lemma_lower_idempotent;
use crate::text::lower;
use crate::url_parser::colon_pos;
use crate::url_parser::frag_start;
use crate::url_parser::host_end;
use crate::url_parser::host_start;
use crate::url_parser::norm_parts;
use crate::url_parser::norm_path;
use crate::url_parser::norm_query;
use crate::url_parser::path_end;
use crate::url_parser::scan_ok;
use crate::url_parser::spec_host;
use crate::url_parser::spec_normalize_url;
use crate::url_parser::spec_path;
use crate::url_parser::spec_query;
use crate::url_parser::spec_scheme;
use crate::url_parser::strip_slashes;
use crate::url_parser::url_accepts;
use vstd::prelude::*;

verus! {

broadcast use vstd::seq_lib::group_filter_ensures;

/// Stripping trailing slashes does not see one more trailing slash.
pub proof fn lemma_strip_push_slash(p: Seq<char>)
    ensures
        norm_path(p.push('/')) == norm_path(p),
{
    if p.len() == 0 {
        assert(p.push('/') =~= seq!['/']);
        assert(strip_slashes(seq!['/']) == seq!['/']);
    } else {
        assert(p.push('/').len() > 1 && p.push('/').last() == '/');
        assert(p.push('/').drop_last() =~= p);
    }
}

/// Two URLs that differ only by a trailing slash on the path have the same
/// canonical string.
pub proof fn lemma_normalize_slash_insensitive(s1: Seq<char>, s2: Seq<char>)
    requires
        url_accepts(s1) && scan_ok(s1),
        url_accepts(s2) && scan_ok(s2),
        spec_scheme(s2) == spec_scheme(s1),
        spec_host(s2) == spec_host(s1),
        spec_query(s2) == spec_query(s1),
        spec_path(s2) == spec_path(s1).push('/'),
    ensures
        spec_normalize_url(s1) == spec_normalize_url(s2),
{
    lemma_strip_push_slash(spec_path(s1));
}

/// Two URLs that differ only by the order of their query parameters have
/// the same canonical string, as long as no key occurs twice. (With one key
/// twice the order of its values is kept, so reordering those may change
/// the canonical string.)
pub proof fn lemma_normalize_query_order_insensitive(s1: Seq<char>, s2: Seq<char>)
    requires
        url_accepts(s1) && scan_ok(s1),
        url_accepts(s2) && scan_ok(s2),
        spec_scheme(s2) == spec_scheme(s1),
        spec_host(s2) == spec_host(s1),
        spec_path(s2) == spec_path(s1),
        spec_query(s1).len() > 1,
        spec_query(s2).len() > 1,
        distinct_keys(query_pairs(spec_query(s1).skip(1)).filter(|p| nonempty_pair(p))),
        query_pairs(spec_query(s1).skip(1)).filter(|p| nonempty_pair(p)).to_multiset()
            == query_pairs(spec_query(s2).skip(1)).filter(|p| nonempty_pair(p)).to_multiset(),
    ensures
        spec_normalize_url(s1) == spec_normalize_url(s2),
{
    lemma_sort_pairs_permutation(
        query_pairs(spec_query(s1).skip(1)).filter(|p| nonempty_pair(p)),
        query_pairs(spec_query(s2).skip(1)).filter(|p| nonempty_pair(p)),
    );
}

/// The components of a URL that scans have these shapes: a non-empty scheme
/// without `:`, a non-empty host without `/`, `?` or `#`, a path that is
/// empty or starts with `/` and holds no `?` or `#`, and a query that is
/// empty or starts with `?` and holds no `#`.
pub proof fn lemma_scan_shape(s: Seq<char>)
    requires
        scan_ok(s),
    ensures
        spec_scheme(s).len() >= 1,
        !spec_scheme(s).contains(':'),
        spec_host(s).len() >= 1,
        !spec_host(s).contains('/'),
        !spec_host(s).contains('?'),
        !spec_host(s).contains('#'),
        spec_path(s).len() == 0 || spec_path(s)[0] == '/',
        !spec_path(s).contains('?'),
        !spec_path(s).contains('#'),
        spec_query(s).len() == 0 || spec_query(s)[0] == '?',
        !spec_query(s).contains('#'),
{
    let ci = colon_pos(s);
    let hs = host_start(s);
    let he = host_end(s);
    let pe = path_end(s);
    let fs = frag_start(s);
    lemma_find_first_in(s, 0, seq![':']);
    lemma_find_first_in(s, hs, seq!['/', '?', '#']);
    lemma_find_first_in(s, he, seq!['?', '#']);
    lemma_find_first_in(s, pe, seq!['#']);
    assert(seq![':'][0] == ':');
    assert(seq!['/', '?', '#'][0] == '/');
    assert(seq!['/', '?', '#'][1] == '?');
    assert(seq!['/', '?', '#'][2] == '#');
    assert(seq!['?', '#'][0] == '?');
    assert(seq!['?', '#'][1] == '#');
    assert(seq!['#'][0] == '#');
    assert forall|j: int| 0 <= j < spec_scheme(s).len() implies spec_scheme(s)[j] != ':' by {
        assert(spec_scheme(s)[j] == s[j]);
        assert(!seq![':'].contains(s[j]));
    }
    assert forall|j: int| 0 <= j < spec_host(s).len() implies spec_host(s)[j] != '/'
        && spec_host(s)[j] != '?' && spec_host(s)[j] != '#' by {
        assert(spec_host(s)[j] == s[hs + j]);
        assert(!seq!['/', '?', '#'].contains(s[hs + j]));
    }
    assert forall|j: int| 0 <= j < spec_path(s).len() implies spec_path(s)[j] != '?'
        && spec_path(s)[j] != '#' by {
        assert(spec_path(s)[j] == s[he + j]);
        assert(!seq!['?', '#'].contains(s[he + j]));
    }
    if spec_path(s).len() > 0 {
        assert(spec_path(s)[0] == s[he as int]);
        assert(he < pe <= s.len());
        assert(seq!['/', '?', '#'].contains(s[he as int]));
        assert(!seq!['?', '#'].contains(s[he as int]));
        let k = choose|k: int| 0 <= k < 3 && seq!['/', '?', '#'][k] == s[he as int];
        assert(s[he as int] == '/');
    }
    if pe < s.len() && s[pe as int] == '?' {
        assert(spec_query(s)[0] == s[pe as int]);
        assert forall|j: int| 0 <= j < spec_query(s).len() implies spec_query(s)[j] != '#' by {
            assert(spec_query(s)[j] == s[pe + j]);
            if j == 0 {
            } else {
                assert(!seq!['#'].contains(s[pe + j]));
            }
        }
    }
}

/// Lowercasing puts no new `:`, `/`, `?` or `#` into a text.
pub proof fn lemma_lower_avoid(x: Seq<char>, c: char)
    requires
        c == ':' || c == '/' || c == '?' || c == '#',
        !x.contains(c),
    ensures
        !lower(x).contains(c),
{
    assert forall|i: int| 0 <= i < lower(x).len() implies lower(x)[i] != c by {
        assert(lower(x)[i] == crate::text::lower_char(x[i]));
        if crate::text::lower_char(x[i]) == c {
            assert(x[i] == c);
        }
    }
}

/// Stripping trailing slashes keeps a prefix of the path: its first
/// character stays, nothing new appears, and what is left either is one
/// character long or does not end in a slash.
pub proof fn lemma_strip_props(p: Seq<char>)
    requires
        p.len() > 0,
    ensures
        1 <= strip_slashes(p).len() <= p.len(),
        strip_slashes(p) == p.take(strip_slashes(p).len() as int),
        strip_slashes(p).len() > 1 ==> strip_slashes(p).last() != '/',
        strip_slashes(p)[0] == p[0],
    decreases p.len(),
{
    if p.len() > 1 && p.last() == '/' {
        let d = p.drop_last();
        lemma_strip_props(d);
        assert(d.take(strip_slashes(p).len() as int) =~= p.take(strip_slashes(p).len() as int));
    } else {
        assert(p.take(p.len() as int) =~= p);
    }
}

/// The canonical path starts with `/`, holds no `?` or `#` the path did
/// not, and either is `/` alone or does not end in a slash.
pub proof fn lemma_norm_path_shape(p: Seq<char>)
    requires
        p.len() == 0 || p[0] == '/',
        !p.contains('?'),
        !p.contains('#'),
    ensures
        norm_path(p).len() >= 1,
        norm_path(p)[0] == '/',
        !norm_path(p).contains('?'),
        !norm_path(p).contains('#'),
        norm_path(p).len() > 1 ==> norm_path(p).last() != '/',
{
    if p.len() == 0 {
        assert(seq!['/'][0] == '/');
        assert forall|j: int| 0 <= j < 1 implies seq!['/'][j] != '?' && seq!['/'][j] != '#' by {
            assert(seq!['/'][0] == '/');
        }
    } else {
        lemma_strip_props(p);
        let e = strip_slashes(p).len() as int;
        assert(p.take(e) =~= p.subrange(0, e));
        lemma_no_char_subrange(p, 0, e, '?');
        lemma_no_char_subrange(p, 0, e, '#');
    }
}

/// Canonicalizing a path twice is canonicalizing it once.
pub proof fn lemma_norm_path_idempotent(p: Seq<char>)
    ensures
        norm_path(norm_path(p)) == norm_path(p),
{
    if p.len() == 0 {
        assert(strip_slashes(seq!['/']) == seq!['/']);
    } else {
        lemma_strip_props(p);
        let q = strip_slashes(p);
        if q.len() == 1 {
            assert(strip_slashes(q) == q);
        } else {
            assert(q.last() != '/');
            assert(strip_slashes(q) == q);
        }
    }
}

/// The canonical query is empty or starts with `?`; it holds no `#` the
/// query did not; and canonicalizing it again changes nothing.
pub proof fn lemma_norm_query_props(q: Seq<char>)
    ensures
        norm_query(norm_query(q)) == norm_query(q),
        norm_query(q).len() == 0 || norm_query(q)[0] == '?',
        !q.contains('#') ==> !norm_query(q).contains('#'),
{
    if q.len() <= 1 {
    } else {
        let raw = query_pairs(q.skip(1));
        let fps = raw.filter(|p| nonempty_pair(p));
        let ps = sort_pairs(fps);
        lemma_sort_pairs_sorted(fps);
        if ps.len() == 0 {
        } else {
            let nq = seq!['?'] + join_pairs(ps);
            assert(nq[0] == '?');
            lemma_permutation_contains(fps, ps);
            lemma_filter_subset(raw, |p| nonempty_pair(p));
            lemma_pairs_from_wf(q.skip(1), 0, Seq::<char>::empty());
            assert forall|i: int| 0 <= i < ps.len() implies nonempty_pair(#[trigger] ps[i])
                && wf_pair(ps[i]) by {
                assert(ps.contains(ps[i]));
                assert(fps.contains(ps[i]));
                let k = choose|k: int| 0 <= k < fps.len() && fps[k] == ps[i];
                assert(nonempty_pair(fps[k]));
                assert(raw.contains(ps[i]));
                let m = choose|m: int| 0 <= m < raw.len() && raw[m] == ps[i];
                assert(wf_pair(raw[m]));
            }
            lemma_join_pairs_len(ps);
            if !q.contains('#') {
                assert forall|j: int| 0 <= j < q.skip(1).len() implies q.skip(1)[j] != '#' by {
                    assert(q.skip(1)[j] == q[j + 1]);
                }
                lemma_pairs_from_avoid(q.skip(1), 0, Seq::<char>::empty(), '#');
                assert forall|i: int| 0 <= i < ps.len() implies !(#[trigger] ps[i]).0.contains('#')
                    && !ps[i].1.contains('#') by {
                    assert(ps.contains(ps[i]));
                    assert(fps.contains(ps[i]));
                    assert(raw.contains(ps[i]));
                    let m = choose|m: int| 0 <= m < raw.len() && raw[m] == ps[i];
                    assert(!raw[m].0.contains('#') && !raw[m].1.contains('#'));
                }
                lemma_join_pairs_avoid(ps, '#');
                assert(!seq!['?'].contains('#')) by {
                    assert(seq!['?'][0] == '?');
                }
                lemma_no_char_concat(seq!['?'], join_pairs(ps), '#');
            }
            assert(nq.len() > 1);
            assert(nq.skip(1) =~= join_pairs(ps));
            lemma_query_pairs_of_join(ps);
            lemma_filter_all(ps, |p| nonempty_pair(p));
            lemma_sort_pairs_of_sorted(ps);
            assert(norm_query(nq) == nq);
        }
    }
}

/// Two URLs that differ only by the case of scheme and host have the same
/// canonical string.
pub proof fn lemma_normalize_case_insensitive(s1: Seq<char>, s2: Seq<char>)
    requires
        url_accepts(s1) && scan_ok(s1),
        url_accepts(s2) && scan_ok(s2),
        lower(spec_scheme(s2)) == lower(spec_scheme(s1)),
        lower(spec_host(s2)) == lower(spec_host(s1)),
        spec_path(s2) == spec_path(s1),
        spec_query(s2) == spec_query(s1),
    ensures
        spec_normalize_url(s1) == spec_normalize_url(s2),
{
}

/// Scanning the canonical string of well-shaped components finds exactly
/// the canonical components back: the lowercased scheme and host, the
/// canonical path and query, and no fragment.
pub proof fn lemma_scan_of_norm(
    scheme: Seq<char>,
    host: Seq<char>,
    path: Seq<char>,
    query: Seq<char>,
)
    requires
        scheme.len() >= 1,
        !scheme.contains(':'),
        host.len() >= 1,
        !host.contains('/'),
        !host.contains('?'),
        !host.contains('#'),
        path.len() == 0 || path[0] == '/',
        !path.contains('?'),
        !path.contains('#'),
        query.len() == 0 || query[0] == '?',
        !query.contains('#'),
    ensures
        scan_ok(norm_parts(scheme, host, path, query)),
        spec_scheme(norm_parts(scheme, host, path, query)) == lower(scheme),
        spec_host(norm_parts(scheme, host, path, query)) == lower(host),
        spec_path(norm_parts(scheme, host, path, query)) == norm_path(path),
        spec_query(norm_parts(scheme, host, path, query)) == norm_query(query),
{
    let l = lower(scheme);
    let h = lower(host);
    let pp = norm_path(path);
    let qq = norm_query(query);
    let c3 = seq![':', '/', '/'];
    let n = norm_parts(scheme, host, path, query);
    let a = l.len() as int;
    let hl = h.len() as int;
    let pl = pp.len() as int;
    lemma_lower_avoid(scheme, ':');
    lemma_lower_avoid(host, '/');
    lemma_lower_avoid(host, '?');
    lemma_lower_avoid(host, '#');
    lemma_norm_path_shape(path);
    lemma_norm_query_props(query);
    assert(c3[0] == ':' && c3[1] == '/' && c3[2] == '/');
    assert(n.len() == a + 3 + hl + pl + qq.len());

    assert forall|i: int| 0 <= i < a implies n[i] == l[i] by {
        assert(n[i] == (l + c3 + h + pp)[i]);
        assert((l + c3 + h + pp)[i] == (l + c3 + h)[i]);
        assert((l + c3 + h)[i] == (l + c3)[i]);
        assert((l + c3)[i] == l[i]);
    }
    assert forall|i: int| a <= i < a + 3 implies n[i] == c3[i - a] by {
        assert(n[i] == (l + c3 + h + pp)[i]);
        assert((l + c3 + h + pp)[i] == (l + c3 + h)[i]);
        assert((l + c3 + h)[i] == (l + c3)[i]);
        assert((l + c3)[i] == c3[i - a]);
    }
    assert forall|i: int| a + 3 <= i < a + 3 + hl implies n[i] == h[i - a - 3] by {
        assert(n[i] == (l + c3 + h + pp)[i]);
        assert((l + c3 + h + pp)[i] == (l + c3 + h)[i]);
        assert((l + c3 + h)[i] == h[i - a - 3]);
    }
    assert forall|i: int| a + 3 + hl <= i < a + 3 + hl + pl implies n[i] == pp[i - a - 3 - hl] by {
        assert(n[i] == (l + c3 + h + pp)[i]);
        assert((l + c3 + h + pp)[i] == pp[i - a - 3 - hl]);
    }
    assert forall|i: int| a + 3 + hl + pl <= i < n.len() implies n[i] == qq[i - a - 3 - hl
        - pl] by {
        assert(n[i] == qq[i - a - 3 - hl - pl]);
    }

    // The scheme ends at the first `:`.
    assert forall|j: int| 0 <= j < a implies !seq![':'].contains(n[j]) by {
        assert(n[j] == l[j]);
        assert(l[j] != ':');
        assert(seq![':'][0] == ':');
    }
    assert(n[a] == ':');
    assert(seq![':'][0] == ':');
    assert(seq![':'].contains(n[a]));
    lemma_find_first_in_is(n, 0, seq![':'], a);
    assert(colon_pos(n) == a);
    assert(n[a + 1] == '/' && n[a + 2] == '/');
    assert(spec_scheme(n) =~= l);

    // The host ends at the start of the path.
    let hs = a + 3;
    let he = hs + hl;
    assert(seq!['/', '?', '#'][0] == '/');
    assert(seq!['/', '?', '#'][1] == '?');
    assert(seq!['/', '?', '#'][2] == '#');
    assert forall|j: int| hs <= j < he implies !seq!['/', '?', '#'].contains(n[j]) by {
        assert(n[j] == h[j - hs]);
        assert(h[j - hs] != '/' && h[j - hs] != '?' && h[j - hs] != '#');
        assert forall|k: int| 0 <= k < 3 implies seq!['/', '?', '#'][k] != n[j] by {
            assert(seq!['/', '?', '#'][0] == '/');
            assert(seq!['/', '?', '#'][1] == '?');
            assert(seq!['/', '?', '#'][2] == '#');
        }
    }
    assert(n[he] == pp[0]);
    assert(n[he] == '/');
    assert(seq!['/', '?', '#'].contains(n[he]));
    lemma_find_first_in_is(n, hs, seq!['/', '?', '#'], he);
    assert(host_end(n) == he);
    assert(scan_ok(n));
    assert(spec_host(n) =~= h);

    // The path ends at the query, or at the end of the string.
    let pe = he + pl;
    assert(seq!['?', '#'][0] == '?');
    assert(seq!['?', '#'][1] == '#');
    assert forall|j: int| he <= j < pe implies !seq!['?', '#'].contains(n[j]) by {
        assert(n[j] == pp[j - he]);
        assert(pp[j - he] != '?' && pp[j - he] != '#');
        assert forall|k: int| 0 <= k < 2 implies seq!['?', '#'][k] != n[j] by {
            assert(seq!['?', '#'][0] == '?');
            assert(seq!['?', '#'][1] == '#');
        }
    }
    if qq.len() == 0 {
        assert(pe == n.len());
        lemma_find_first_in_is(n, he, seq!['?', '#'], pe);
        assert(path_end(n) == pe);
        assert(spec_path(n) =~= pp);
        assert(spec_query(n) =~= qq);
    } else {
        assert(n[pe] == qq[0]);
        assert(n[pe] == '?');
        assert(seq!['?', '#'].contains(n[pe]));
        lemma_find_first_in_is(n, he, seq!['?', '#'], pe);
        assert(path_end(n) == pe);
        assert(spec_path(n) =~= pp);
        assert(seq!['#'][0] == '#');
        assert forall|j: int| pe <= j < n.len() implies !seq!['#'].contains(n[j]) by {
            assert(n[j] == qq[j - pe]);
            assert(qq[j - pe] != '#');
        }
        lemma_find_first_in_is(n, pe, seq!['#'], n.len() as int);
        assert(frag_start(n) == n.len());
        assert(spec_query(n) =~= qq);
    }
}

/// Normalizing a canonical string changes nothing: `normalize` is
/// idempotent at the string level, whether or not a given string parses.
pub proof fn lemma_normalize_idempotent(s: Seq<char>)
    ensures
        spec_normalize_url(spec_normalize_url(s)) == spec_normalize_url(s),
{
    if url_accepts(s) && scan_ok(s) {
        let sc = spec_scheme(s);
        let ho = spec_host(s);
        let pa = spec_path(s);
        let qu = spec_query(s);
        let n = norm_parts(sc, ho, pa, qu);
        lemma_scan_shape(s);
        lemma_scan_of_norm(sc, ho, pa, qu);
        if url_accepts(n) {
            lemma_lower_idempotent(sc);
            lemma_lower_idempotent(ho);
            lemma_norm_path_idempotent(pa);
            lemma_norm_query_props(qu);
            assert(norm_parts(spec_scheme(n), spec_host(n), spec_path(n), spec_query(n)) == n);
        }
    }
}

} // verus!
