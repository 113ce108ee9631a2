//! The match collector: it compiles a pattern and gathers the capture spans
//! of every match in a subject. Compiling and matching are the work of the
//! `regex` crate.

use vstd::prelude::*;
use vstd::string::*;
use crate::matcher::{
    capture_spans, compile, compile_result, describe, error_text, found_in, scan, span_lists,
};
use crate::span::{capture_views, copy_groups, valid_captures, CaptureList, Span};

verus! {

/// Why no matches could be collected.
#[derive(Debug)]
pub enum MatchError {
    /// The pattern does not compile. The text is the compiler's diagnostic.
    InvalidPattern(String),
}

impl MatchError {
    /// The error as the user reads it.
    pub open spec fn message_text(&self) -> Seq<char> {
        match self {
            MatchError::InvalidPattern(text) => "Regex error: "@ + text@,
        }
    }

    /// Writes the error out for the user: what kind of error it is, and the
    /// diagnostic.
    pub fn message(&self) -> (message: String)
        ensures
            message@ == self.message_text(),
    {
        match self {
            MatchError::InvalidPattern(text) => {
                let mut message = String::from_str("Regex error: ");
                message.append(text.as_str());
                message
            },
        }
    }
}

/// Makes a capture list of each list of spans, in order, or `None` where one
/// of them does not hold valid captures.
pub fn collect_records(found: &Vec<Vec<Option<Span>>>) -> (records: Option<Vec<CaptureList>>)
    ensures
        records is Some <==> forall|i: int|
            0 <= i < found@.len() ==> valid_captures(#[trigger] found@[i]@),
        records matches Some(lists) ==> capture_views(lists@) == span_lists(found@),
{
    let mut lists: Vec<CaptureList> = Vec::new();
    let mut i: usize = 0;
    while i < found.len()
        invariant
            i <= found.len(),
            lists@.len() == i,
            forall|k: int| 0 <= k < i ==> valid_captures(#[trigger] found@[k]@),
            forall|k: int| 0 <= k < i ==> (#[trigger] lists@[k])@ == found@[k]@,
        decreases found.len() - i,
    {
        let groups = copy_groups(&found[i]);
        match CaptureList::new(groups) {
            Some(list) => {
                lists.push(list);
            },
            None => {
                assert(!valid_captures(found@[i as int]@));
                return None;
            },
        }
        i += 1;
    }
    assert(capture_views(lists@) =~= span_lists(found@));
    Some(lists)
}

/// Finds every match of `pattern` in `subject` and returns, for each match in
/// the order found, the spans of its capture groups.
///
/// A pattern that does not compile gives `MatchError::InvalidPattern` with the
/// compiler's diagnostic; any other pattern gives the matches.
pub fn find_matches(pattern: &str, subject: &str) -> (result: Result<Vec<CaptureList>, MatchError>)
    ensures
        match result {
            Ok(records) => {
                &&& compile_result(pattern@) matches Ok(matcher)
                &&& capture_views(records@) == capture_spans(matcher, subject@)
                &&& found_in(capture_views(records@), subject.len())
            },
            Err(MatchError::InvalidPattern(text)) => {
                &&& compile_result(pattern@) matches Err(error)
                &&& text@ == error_text(error)
            },
        },
{
    match compile(pattern) {
        Ok(matcher) => {
            let found = scan(&matcher, subject);
            proof {
                assert forall|i: int| 0 <= i < found@.len() implies valid_captures(
                    #[trigger] found@[i]@,
                ) by {
                    assert(span_lists(found@)[i] == found@[i]@);
                }
            }
            let records = collect_records(&found);
            Ok(records.unwrap())
        },
        Err(error) => Err(MatchError::InvalidPattern(describe(&error))),
    }
}

} // verus!
