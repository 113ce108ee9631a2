//! Matching modes, asked for by flags in front of the pattern.

use vstd::prelude::*;
use vstd::string::*;

verus! {

/// The flag that makes a pattern match without regard to case.
pub open spec fn insensitive_flag() -> Seq<char> {
    seq!['(', '?', 'i', ')']
}

/// The flag that makes `^` and `$` match at the start and end of each line.
pub open spec fn multiline_flag() -> Seq<char> {
    seq!['(', '?', 'm', ')']
}

/// The flags that ask for the given modes: the one for lines, where it is
/// asked for, stands before the one for case.
pub open spec fn flag_prefix(insensitive: bool, multiline: bool) -> Seq<char> {
    (if multiline {
        multiline_flag()
    } else {
        Seq::empty()
    }) + (if insensitive {
        insensitive_flag()
    } else {
        Seq::empty()
    })
}

/// Puts the flags for the given modes in front of a pattern.
pub fn with_flags(pattern: &str, insensitive: bool, multiline: bool) -> (decorated: String)
    ensures
        decorated@ == flag_prefix(insensitive, multiline) + pattern@,
{
    proof {
        reveal_strlit("(?i)");
        reveal_strlit("(?m)");
    }
    let mut decorated = String::new();
    if multiline {
        decorated.append("(?m)");
    }
    if insensitive {
        decorated.append("(?i)");
    }
    assert(decorated@ == flag_prefix(insensitive, multiline));
    decorated.append(pattern);
    decorated
}

} // verus!
