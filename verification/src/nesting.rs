//! Capture lists whose spans nest: the lists on which the regions of a match
//! partition its text.

use vstd::prelude::*;
use crate::span::{valid_captures, CaptureList, Span};

verus! {

/// Two spans of one list agree when the later one lies inside the earlier one
/// or starts no sooner than the earlier one ends.
pub open spec fn in_order(earlier: Span, later: Span) -> bool {
    later.is_within(earlier) || earlier.end <= later.start
}

/// The spans below index `upto` nest in index order: every one but the whole
/// match lies inside the whole match, and of any two of them the later one
/// lies inside the earlier one or after it.
pub open spec fn nested_below(groups: Seq<Option<Span>>, upto: int) -> bool {
    &&& forall|j: int|
        0 < j < upto && groups[j] is Some ==> (#[trigger] groups[j])->0.is_within(groups[0]->0)
    &&& forall|i: int, j: int|
        0 < i < j < upto && groups[i] is Some && groups[j] is Some ==> in_order(
            (#[trigger] groups[i])->0,
            (#[trigger] groups[j])->0,
        )
}

/// The spans of `groups` nest in index order: every span lies inside the
/// whole match, and of any two spans the later one lies inside the earlier
/// one or after it. An enclosing span thus comes before what it encloses, and
/// of two spans side by side the left one comes first.
pub open spec fn well_nested(groups: Seq<Option<Span>>) -> bool {
    valid_captures(groups) && nested_below(groups, groups.len() as int)
}

/// Whether span `j` agrees with every span before it.
spec fn agrees_upto(groups: Seq<Option<Span>>, j: int, upto: int) -> bool {
    forall|i: int|
        0 < i < upto && groups[i] is Some ==> in_order((#[trigger] groups[i])->0, groups[j]->0)
}

/// Tells whether the spans of a capture list nest in index order.
pub fn is_well_nested(captures: &CaptureList) -> (nested: bool)
    ensures
        nested == well_nested(captures@),
{
    let groups = captures.groups();
    let whole = captures.whole();
    let mut j: usize = 1;
    while j < groups.len()
        invariant
            1 <= j <= groups.len(),
            groups@ == captures@,
            valid_captures(groups@),
            groups@[0] == Some(whole),
            nested_below(groups@, j as int),
        decreases groups.len() - j,
    {
        match groups[j] {
            Some(later) => {
                if later.start < whole.start || later.end > whole.end {
                    assert(!groups@[j as int]->0.is_within(groups@[0]->0));
                    return false;
                }
                let mut i: usize = 1;
                while i < j
                    invariant
                        1 <= i <= j < groups.len(),
                        groups@ == captures@,
                        groups@[j as int] == Some(later),
                        agrees_upto(groups@, j as int, i as int),
                    decreases j - i,
                {
                    match groups[i] {
                        Some(earlier) => {
                            let inside = earlier.start <= later.start && later.end <= earlier.end;
                            if !inside && earlier.end > later.start {
                                assert(!in_order(groups@[i as int]->0, groups@[j as int]->0));
                                return false;
                            }
                        },
                        None => {},
                    }
                    i += 1;
                }
            },
            None => {},
        }
        j += 1;
    }
    true
}

} // verus!
