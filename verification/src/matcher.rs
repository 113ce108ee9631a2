//! The matcher: the `regex` crate, as far as the collector calls it. The
//! contracts in this file are taken from the crate's documentation and are
//! not proved.

use vstd::prelude::*;
use vstd::string::*;
use regex::Regex;
use crate::span::{valid_captures, Span};

verus! {

/// `regex::Regex`, a compiled pattern. Nothing inside it is seen here.
#[verifier::external_type_specification]
#[verifier::external_body]
pub struct ExRegex(regex::Regex);

/// `regex::Error`, why a pattern did not compile. Nothing inside it is seen
/// here.
#[verifier::external_type_specification]
#[verifier::external_body]
pub struct ExRegexError(regex::Error);

/// What `regex::Regex::new` returns for a pattern: the compiled matcher, or
/// the error that says why the pattern does not compile.
pub uninterp spec fn compile_result(pattern: Seq<char>) -> Result<Regex, regex::Error>;

/// What a `regex::Error` prints as: the compiler's diagnostic.
pub uninterp spec fn error_text(error: regex::Error) -> Seq<char>;

/// What `Regex::captures_iter` yields for a matcher and a subject: for each
/// match in turn, the spans of its groups by index.
pub uninterp spec fn capture_spans(matcher: Regex, subject: Seq<char>) -> Seq<Seq<Option<Span>>>;

/// The spans of each list of a sequence.
pub open spec fn span_lists(found: Seq<Vec<Option<Span>>>) -> Seq<Seq<Option<Span>>> {
    found.map_values(|list: Vec<Option<Span>>| list@)
}

/// What the matcher's documentation promises of the matches it finds in a
/// subject of `length` bytes: each holds valid captures, no span reaches past
/// the subject's end, and the matches follow one another without overlap.
pub open spec fn found_in(found: Seq<Seq<Option<Span>>>, length: usize) -> bool {
    &&& forall|i: int| 0 <= i < found.len() ==> valid_captures(#[trigger] found[i])
    &&& forall|i: int, g: int|
        0 <= i < found.len() && 0 <= g < found[i].len() && found[i][g] is Some ==> (
        #[trigger] found[i][g])->0.end <= length
    &&& forall|i: int, j: int|
        0 <= i < j < found.len() ==> (#[trigger] found[i])[0]->0.end <= (
        #[trigger] found[j])[0]->0.start
}

/// Calls `regex::Regex::new`. The contract names the result: it is the same
/// for the same pattern.
#[verifier::external_body]
pub(crate) fn compile(pattern: &str) -> (compiled: Result<Regex, regex::Error>)
    ensures
        compiled == compile_result(pattern@),
{
    Regex::new(pattern)
}

/// Calls `to_string` on a `regex::Error`, which prints it by its `Display`.
/// The contract names the text.
#[verifier::external_body]
pub(crate) fn describe(error: &regex::Error) -> (text: String)
    ensures
        text@ == error_text(*error),
{
    error.to_string()
}

/// Calls `Regex::captures_iter` and hands out each match as the spans of its
/// groups, read with `Captures::iter`, `Match::start` and `Match::end`. The
/// contract names the result and states what the documentation of these
/// promises: group 0 is present in every match, a span starts no later than
/// it ends and lies in the subject, and the matches are successive and do
/// not overlap.
#[verifier::external_body]
pub(crate) fn scan(matcher: &Regex, subject: &str) -> (found: Vec<Vec<Option<Span>>>)
    ensures
        span_lists(found@) == capture_spans(*matcher, subject@),
        found_in(span_lists(found@), subject.len()),
{
    matcher
        .captures_iter(subject)
        .map(|captures| {
            captures
                .iter()
                .map(|group| group.map(|m| Span { start: m.start(), end: m.end() }))
                .collect()
        })
        .collect()
}

} // verus!
