//! Structured field extraction from a fetched page.
//!
//! Each configured (field name, selector) pair is put to the extraction
//! engine; a selector prefixed `css:`, `xpath:` or `regex:` picks its
//! engine, an unprefixed one defaults to `css:`. A field whose query
//! returns nothing is omitted; a malformed document simply yields no
//! fields, never an error.

use crate::qparams::pairs_view;
use vstd::prelude::*;
use vstd::string::StrSliceExecFns;
use vstd::string::StringExecFns;

verus! {

/// The single value the extraction engine returns for a query over one
/// HTML document; the empty text when nothing matches.
pub uninterp spec fn selected_of(html: Seq<char>, query: Seq<char>) -> Seq<char>;

/// Relies on chadselect::ChadSelect::select over one added HTML document:
/// it returns the first valid match as one string, or the empty string when
/// nothing matches, never panics, and its result depends on the document
/// and the query alone.
#[verifier::external_body]
fn select_one(html: &str, query: &str) -> (r: String)
    ensures
        r@ == selected_of(html@, query@),
{
    let mut cs = chadselect::ChadSelect::new();
    cs.add_html(html.to_string());
    cs.select(0, query)
}

/// Whether `p` is how `s` starts.
pub open spec fn has_prefix(s: Seq<char>, p: Seq<char>) -> bool {
    p.len() <= s.len() && s.subrange(0, p.len() as int) == p
}

/// Whether `p` is how `s` starts.
pub fn starts_with_text(s: &str, p: &str) -> (r: bool)
    ensures
        r == has_prefix(s@, p@),
{
    let sl = s.unicode_len();
    let pl = p.unicode_len();
    if pl > sl {
        return false;
    }
    let mut i: usize = 0;
    while i < pl
        invariant
            i <= pl <= sl,
            sl == s@.len(),
            pl == p@.len(),
            forall|j: int| 0 <= j < i ==> s@[j] == p@[j],
        decreases pl - i,
    {
        if s.get_char(i) != p.get_char(i) {
            proof {
                assert(s@.subrange(0, pl as int)[i as int] != p@[i as int]);
            }
            return false;
        }
        i = i + 1;
    }
    proof {
        assert(s@.subrange(0, pl as int) =~= p@);
    }
    true
}

/// The query the engine is handed: the selector itself when it names an
/// engine, and `css:` put before it otherwise.
pub open spec fn qualified(s: Seq<char>) -> Seq<char> {
    if has_prefix(s, "css:"@) || has_prefix(s, "xpath:"@) || has_prefix(s, "regex:"@) {
        s
    } else {
        "css:"@ + s
    }
}

/// Prefixes an unprefixed selector with `css:`.
pub fn qualify_selector(s: &str) -> (r: String)
    ensures
        r@ == qualified(s@),
{
    if starts_with_text(s, "css:") || starts_with_text(s, "xpath:") || starts_with_text(
        s,
        "regex:",
    ) {
        String::from_str(s)
    } else {
        let mut out = String::from_str("css:");
        out.append(s);
        out
    }
}

/// The extracted field map: one (name, value) entry per selector whose
/// query returns something, in configuration order.
pub open spec fn spec_extract(
    html: Seq<char>,
    sels: Seq<(Seq<char>, Seq<char>)>,
) -> Seq<(Seq<char>, Seq<char>)>
    decreases sels.len(),
{
    if sels.len() == 0 {
        Seq::<(Seq<char>, Seq<char>)>::empty()
    } else {
        let v = selected_of(html, qualified(sels[0].1));
        (if v.len() > 0 {
            seq![(sels[0].0, v)]
        } else {
            Seq::<(Seq<char>, Seq<char>)>::empty()
        }) + spec_extract(html, sels.skip(1))
    }
}

/// Extracts the configured fields from one page. A field whose query
/// returns the empty value is omitted.
pub fn extract_fields(html: &str, selectors: &Vec<(String, String)>) -> (r: Vec<(String, String)>)
    ensures
        pairs_view(r@) == spec_extract(html@, pairs_view(selectors@)),
{
    let ghost sv = pairs_view(selectors@);
    let mut out: Vec<(String, String)> = Vec::new();
    let mut i: usize = 0;
    proof {
        assert(pairs_view(out@) =~= Seq::<(Seq<char>, Seq<char>)>::empty());
        assert(sv.skip(0) =~= sv);
        assert(Seq::<(Seq<char>, Seq<char>)>::empty() + spec_extract(html@, sv) =~= spec_extract(
            html@,
            sv,
        ));
    }
    while i < selectors.len()
        invariant
            i <= selectors@.len(),
            sv == pairs_view(selectors@),
            sv.len() == selectors@.len(),
            spec_extract(html@, sv) == pairs_view(out@) + spec_extract(html@, sv.skip(i as int)),
        decreases selectors@.len() - i,
    {
        let ghost pre = pairs_view(out@);
        let query = qualify_selector(selectors[i].1.as_str());
        let value = select_one(html, query.as_str());
        proof {
            assert(sv[i as int] == (selectors@[i as int].0@, selectors@[i as int].1@));
            assert(sv.skip(i as int)[0] == sv[i as int]);
            assert(sv.skip(i as int).skip(1) =~= sv.skip(i + 1));
        }
        if value.as_str().unicode_len() > 0 {
            let name = selectors[i].0.clone();
            out.push((name, value));
            proof {
                assert(pairs_view(out@) =~= pre.push((sv[i as int].0, selected_of(
                    html@,
                    qualified(sv[i as int].1),
                ))));
                assert(pre.push((sv[i as int].0, selected_of(html@, qualified(sv[i as int].1))))
                    + spec_extract(html@, sv.skip(i + 1)) =~= pre + (seq![
                    (sv[i as int].0, selected_of(html@, qualified(sv[i as int].1))),
                ] + spec_extract(html@, sv.skip(i + 1))));
            }
        } else {
            proof {
                assert(pre + (Seq::<(Seq<char>, Seq<char>)>::empty() + spec_extract(
                    html@,
                    sv.skip(i + 1),
                )) =~= pre + spec_extract(html@, sv.skip(i + 1)));
            }
        }
        i = i + 1;
    }
    proof {
        assert(sv.skip(sv.len() as int) =~= Seq::<(Seq<char>, Seq<char>)>::empty());
        assert(pairs_view(out@) + Seq::<(Seq<char>, Seq<char>)>::empty() =~= pairs_view(out@));
    }
    out
}

} // verus!
