//! Regular expressions, matched by the `regex` crate.

use vstd::prelude::*;

verus! {

/// What matching `pattern` against `haystack` captures: `Err` when the
/// pattern does not compile, `Ok(None)` when it does not match, otherwise
/// the text of each capture group of the leftmost-first match (`None` for a
/// group that took no part in it), group 0 being the whole match.
pub uninterp spec fn regex_captures_of(pattern: Seq<char>, haystack: Seq<char>) -> Result<
    Option<Seq<Option<Seq<char>>>>,
    (),
>;

/// The captured groups as sequences of characters.
pub open spec fn captures_view(c: Result<Option<Vec<Option<String>>>, ()>) -> Result<
    Option<Seq<Option<Seq<char>>>>,
    (),
> {
    match c {
        Err(()) => Err(()),
        Ok(None) => Ok(None),
        Ok(Some(groups)) => Ok(
            Some(
                groups@.map_values(
                    |g: Option<String>|
                        match g {
                            Some(s) => Some(s@),
                            None => None,
                        },
                ),
            ),
        ),
    }
}

/// Compiles `pattern` with `regex::Regex::new` and matches it against
/// `haystack` with `Regex::captures`. The result is that of the two calls,
/// named `regex_captures_of`; nothing more is claimed of it.
#[verifier::external_body]
pub(crate) fn regex_captures(pattern: &str, haystack: &str) -> (r: Result<Option<Vec<Option<String>>>, ()>)
    ensures
        captures_view(r) == regex_captures_of(pattern@, haystack@),
        r.is_ok() == regex_compiles_of(pattern@),
{
    match regex::Regex::new(pattern) {
        Ok(re) => Ok(
            re.captures(haystack).map(
                |caps| caps.iter().map(|group| group.map(|m| m.as_str().to_string())).collect(),
            ),
        ),
        Err(_) => Err(()),
    }
}

/// Whether `regex::Regex::new` accepts `pattern`.
pub uninterp spec fn regex_compiles_of(pattern: Seq<char>) -> bool;

/// Whether the compiled `pattern` matches somewhere in `haystack`, the
/// search starting at offset 0 (`Regex::is_match_at`); the match itself need
/// not start there.
pub uninterp spec fn regex_is_match_at_of(pattern: Seq<char>, haystack: Seq<char>) -> bool;

/// Compiles `pattern` with `regex::Regex::new`, keeping only whether it
/// succeeded: `Ok` exactly when `regex_compiles_of(pattern)`. The engine's
/// description of a refused pattern is not kept.
#[verifier::external_body]
pub(crate) fn regex_compile(pattern: &str) -> (r: Result<(), ()>)
    ensures
        r.is_ok() == regex_compiles_of(pattern@),
{
    match regex::Regex::new(pattern) {
        Ok(_) => Ok(()),
        Err(_) => Err(()),
    }
}

/// Compiles `pattern` with `regex::Regex::new` and, when it compiles, asks
/// `Regex::is_match_at(haystack, 0)`: `Err` exactly when the pattern does not
/// compile, otherwise the answer, named `regex_is_match_at_of`.
#[verifier::external_body]
pub(crate) fn regex_is_match_at(pattern: &str, haystack: &str) -> (r: Result<bool, ()>)
    ensures
        r.is_ok() == regex_compiles_of(pattern@),
        r matches Ok(b) ==> b == regex_is_match_at_of(pattern@, haystack@),
{
    match regex::Regex::new(pattern) {
        Ok(re) => Ok(re.is_match_at(haystack, 0)),
        Err(_) => Err(()),
    }
}

/// The byte spans of the successive non-overlapping matches of the
/// compiled `pattern` in `haystack` (`Regex::find_iter`).
pub uninterp spec fn regex_find_iter_of(pattern: Seq<char>, haystack: Seq<char>) -> Seq<(int, int)>;

/// The byte span of capture group `group` in each successive match of the
/// compiled `pattern` in `haystack` (`Regex::captures_iter`), `None` where
/// the group took no part in the match.
pub uninterp spec fn regex_group_spans_of(pattern: Seq<char>, haystack: Seq<char>, group: int) -> Seq<
    Option<(int, int)>,
>;

/// The spans as pairs of integers.
pub open spec fn spans_view(v: Seq<(usize, usize)>) -> Seq<(int, int)> {
    v.map_values(|p: (usize, usize)| (p.0 as int, p.1 as int))
}

/// The optional spans as pairs of integers.
pub open spec fn opt_spans_view(v: Seq<Option<(usize, usize)>>) -> Seq<Option<(int, int)>> {
    v.map_values(
        |p: Option<(usize, usize)>|
            match p {
                Some(q) => Some((q.0 as int, q.1 as int)),
                None => None,
            },
    )
}

/// Compiles `pattern` with `regex::Regex::new` and, when it compiles,
/// collects the start and end of each match of `Regex::find_iter(haystack)`:
/// `Err` exactly when the pattern does not compile, otherwise the spans,
/// named `regex_find_iter_of`.
#[verifier::external_body]
pub(crate) fn regex_find_iter(pattern: &str, haystack: &str) -> (r: Result<Vec<(usize, usize)>, ()>)
    ensures
        r.is_ok() == regex_compiles_of(pattern@),
        r matches Ok(v) ==> spans_view(v@) == regex_find_iter_of(pattern@, haystack@),
{
    let re = match regex::Regex::new(pattern) {
        Ok(re) => re,
        Err(_) => return Err(()),
    };
    let mut spans = Vec::new();
    for m in re.find_iter(haystack) {
        spans.push((m.start(), m.end()));
    }
    Ok(spans)
}

/// Compiles `pattern` with `regex::Regex::new` and, when it compiles,
/// collects the span of group `group` of each match of
/// `Regex::captures_iter(haystack)`: `Err` exactly when the pattern does
/// not compile, otherwise the spans, named `regex_group_spans_of`.
#[verifier::external_body]
pub(crate) fn regex_group_spans(pattern: &str, haystack: &str, group: usize) -> (r: Result<
    Vec<Option<(usize, usize)>>,
    (),
>)
    ensures
        r.is_ok() == regex_compiles_of(pattern@),
        r matches Ok(v) ==> opt_spans_view(v@) == regex_group_spans_of(pattern@, haystack@, group as int),
{
    let re = match regex::Regex::new(pattern) {
        Ok(re) => re,
        Err(_) => return Err(()),
    };
    let mut spans = Vec::new();
    for caps in re.captures_iter(haystack) {
        let span = match caps.get(group) {
            Some(m) => Some((m.start(), m.end())),
            None => None,
        };
        spans.push(span);
    }
    Ok(spans)
}

} // verus!
