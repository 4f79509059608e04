//! Regular-expression matching, done by the `regex` crate.
//!
//! Nothing here is proved: each function states what the crate's matcher is
//! taken to do, and the rest of the library reasons from those statements.

use crate::text::strings_view;
use vstd::prelude::*;

verus! {

/// `regex::Error`, the reason why a pattern does not compile. The library
/// carries it and never looks inside.
#[verifier::external_type_specification]
#[verifier::external_body]
pub struct ExPatternError(regex::Error);

/// Whether `regex::Regex::new` accepts the pattern.
pub uninterp spec fn regex_compiles(pattern: Seq<char>) -> bool;

/// What `regex::Regex::captures` finds for the pattern in the haystack: nothing,
/// or the text of every capture group of the leftmost match, group 0 (the whole
/// match) first, with `None` for a group that took no part in the match.
pub uninterp spec fn regex_captures(pattern: Seq<char>, haystack: Seq<char>) -> Option<
    Seq<Option<Seq<char>>>,
>;

/// What `regex::Regex::find_iter` yields for the pattern in the haystack: the
/// text of each successive non-overlapping match, from left to right.
pub uninterp spec fn regex_matches(pattern: Seq<char>, haystack: Seq<char>) -> Seq<Seq<char>>;

/// What a search found, as plain values.
pub open spec fn found_view(found: Option<Vec<Option<String>>>) -> Option<Seq<Option<Seq<char>>>> {
    match found {
        Some(groups) => Some(groups_view(groups@)),
        None => None,
    }
}

/// The texts of a list of capture groups.
pub open spec fn groups_view(groups: Seq<Option<String>>) -> Seq<Option<Seq<char>>> {
    Seq::new(
        groups.len(),
        |i: int|
            match groups[i] {
                Some(s) => Some(s@),
                None => None,
            },
    )
}

/// Compiles `pattern` with `regex::Regex::new` and searches `haystack` with
/// `regex::Regex::captures`. The pattern is compiled anew at each call.
///
/// Taken on trust: the call fails exactly when the pattern does not compile, and
/// otherwise hands back the capture groups of the leftmost match, one entry for
/// each group in the order of `regex::Captures::iter`.
#[verifier::external_body]
pub(crate) fn capture_groups(pattern: &str, haystack: &str) -> (r: Result<
    Option<Vec<Option<String>>>,
    regex::Error,
>)
    ensures
        r is Ok <==> regex_compiles(pattern@),
        r matches Ok(found) ==> found_view(found) == regex_captures(pattern@, haystack@),
{
    let re = regex::Regex::new(pattern)?;
    Ok(
        re.captures(haystack).map(
            |found| found.iter().map(|group| group.map(|m| m.as_str().to_owned())).collect(),
        ),
    )
}

/// Compiles `pattern` with `regex::Regex::new` and lists the matches that
/// `regex::Regex::find_iter` yields in `haystack`. The pattern is compiled anew
/// at each call.
///
/// Taken on trust: the call fails exactly when the pattern does not compile, and
/// otherwise hands back the text of each match in the order of the iterator.
#[verifier::external_body]
pub(crate) fn all_matches(pattern: &str, haystack: &str) -> (r: Result<Vec<String>, regex::Error>)
    ensures
        r is Ok <==> regex_compiles(pattern@),
        r matches Ok(found) ==> strings_view(found@) == regex_matches(pattern@, haystack@),
{
    let re = regex::Regex::new(pattern)?;
    Ok(re.find_iter(haystack).map(|m| m.as_str().to_owned()).collect())
}

} // verus!
