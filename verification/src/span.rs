//! Spans of text and the capture list of one match.

use vstd::prelude::*;

verus! {

/// A half-open interval `[start, end)` of byte offsets into the subject text.
#[derive(Clone, Copy, Debug, PartialEq, Eq, Structural)]
pub struct Span {
    pub start: usize,
    pub end: usize,
}

impl Span {
    /// A span is ordered when it does not end before it starts.
    pub open spec fn is_ordered(self) -> bool {
        self.start <= self.end
    }

    /// `self` lies inside `outer`, boundaries included.
    pub open spec fn is_within(self, outer: Span) -> bool {
        outer.start <= self.start && self.end <= outer.end
    }
}

/// What every capture list holds: the whole match at index 0, and no span
/// that ends before it starts.
pub open spec fn valid_captures(groups: Seq<Option<Span>>) -> bool {
    &&& groups.len() > 0
    &&& groups[0] is Some
    &&& forall|i: int|
        0 <= i < groups.len() && groups[i] is Some ==> (#[trigger] groups[i])->0.is_ordered()
}

/// The capture spans of one match, by group index. Index 0 is the whole match
/// and is always present; a group that took no part in the match is `None`.
#[derive(Debug)]
pub struct CaptureList {
    groups: Vec<Option<Span>>,
}

impl CaptureList {
    #[verifier::type_invariant]
    spec fn holds_valid_captures(&self) -> bool {
        valid_captures(self.groups@)
    }

    /// The spans by group index.
    pub closed spec fn view(&self) -> Seq<Option<Span>> {
        self.groups@
    }

    /// Makes a capture list of `groups`, or `None` where they are not valid
    /// captures: where there is no group 0, or a span ends before it starts.
    pub fn new(groups: Vec<Option<Span>>) -> (made: Option<CaptureList>)
        ensures
            made is Some <==> valid_captures(groups@),
            made matches Some(list) ==> list@ == groups@,
    {
        if groups.len() == 0 {
            return None;
        }
        if groups[0].is_none() {
            return None;
        }
        let mut i: usize = 0;
        while i < groups.len()
            invariant
                i <= groups.len(),
                forall|k: int|
                    0 <= k < i && groups@[k] is Some ==> (#[trigger] groups@[k])->0.is_ordered(),
            decreases groups.len() - i,
        {
            match groups[i] {
                Some(span) => {
                    if span.start > span.end {
                        return None;
                    }
                },
                None => {},
            }
            i += 1;
        }
        Some(CaptureList { groups })
    }

    /// The number of groups, the whole match included.
    pub fn len(&self) -> (n: usize)
        ensures
            n == self@.len(),
            n > 0,
    {
        proof {
            use_type_invariant(self);
        }
        self.groups.len()
    }

    /// The span of group `index`, or `None` where the group took no part in
    /// the match or the list has no such group.
    pub fn get(&self, index: usize) -> (span: Option<Span>)
        ensures
            span == (if index < self@.len() {
                self@[index as int]
            } else {
                None
            }),
            span matches Some(s) ==> s.is_ordered(),
    {
        proof {
            use_type_invariant(self);
        }
        if index < self.groups.len() {
            self.groups[index]
        } else {
            None
        }
    }

    /// The span of the whole match.
    pub fn whole(&self) -> (span: Span)
        ensures
            self@.len() > 0,
            self@[0] == Some(span),
            span.is_ordered(),
    {
        proof {
            use_type_invariant(self);
        }
        self.groups[0].unwrap()
    }

    /// The spans by group index. They are valid captures.
    pub fn groups(&self) -> (groups: &Vec<Option<Span>>)
        ensures
            groups@ == self@,
            valid_captures(groups@),
    {
        proof {
            use_type_invariant(self);
        }
        &self.groups
    }
}

/// The capture spans of each match of a sequence.
pub open spec fn capture_views(matches: Seq<CaptureList>) -> Seq<Seq<Option<Span>>> {
    matches.map_values(|list: CaptureList| list@)
}

impl Clone for CaptureList {
    fn clone(&self) -> (copy: CaptureList)
        ensures
            copy@ == self@,
    {
        proof {
            use_type_invariant(self);
        }
        CaptureList { groups: copy_groups(&self.groups) }
    }
}

/// Copies a list of spans.
pub(crate) fn copy_groups(groups: &Vec<Option<Span>>) -> (copy: Vec<Option<Span>>)
    ensures
        copy@ == groups@,
{
    let mut copy: Vec<Option<Span>> = Vec::new();
    let mut i: usize = 0;
    while i < groups.len()
        invariant
            i <= groups.len(),
            copy@ == groups@.take(i as int),
        decreases groups.len() - i,
    {
        copy.push(groups[i]);
        assert(groups@.take(i + 1) == groups@.take(i as int).push(groups@[i as int]));
        i += 1;
    }
    assert(groups@.take(i as int) == groups@);
    copy
}

} // verus!
