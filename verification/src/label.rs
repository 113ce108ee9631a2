//! The text that stands before each match in a list of matches: its ordinal
//! and the byte range of the whole match, each in a column of fixed width.

use vstd::prelude::*;
use vstd::string::*;
use crate::span::Span;

verus! {

/// The width of the column that holds a match's ordinal.
pub const ORDINAL_WIDTH: usize = 4;

/// The width of the column that holds a match's byte range.
pub const RANGE_WIDTH: usize = 14;

/// The character of a decimal digit.
pub open spec fn digit_char(digit: nat) -> char
    recommends
        digit < 10,
{
    if digit == 0 {
        '0'
    } else if digit == 1 {
        '1'
    } else if digit == 2 {
        '2'
    } else if digit == 3 {
        '3'
    } else if digit == 4 {
        '4'
    } else if digit == 5 {
        '5'
    } else if digit == 6 {
        '6'
    } else if digit == 7 {
        '7'
    } else if digit == 8 {
        '8'
    } else {
        '9'
    }
}

/// The decimal numeral of `n`: its digits, the most significant first, with
/// no leading zero but for zero itself.
pub open spec fn decimal(n: nat) -> Seq<char>
    decreases n,
{
    if n < 10 {
        seq![digit_char(n)]
    } else {
        decimal(n / 10).push(digit_char(n % 10))
    }
}

/// `count` spaces.
pub open spec fn spaces(count: nat) -> Seq<char> {
    Seq::new(count, |i: int| ' ')
}

/// `text` in a column of `width` characters: spaces fill the column up on the
/// right, and a text that is wider than the column stays whole.
pub open spec fn left_aligned(text: Seq<char>, width: nat) -> Seq<char> {
    if text.len() < width {
        text + spaces((width - text.len()) as nat)
    } else {
        text
    }
}

/// The ordinal of a match as the list shows it: the numeral and a full stop.
pub open spec fn ordinal_text(ordinal: nat) -> Seq<char> {
    decimal(ordinal).push('.')
}

/// The byte range of a match as the list shows it: `[start-end]`.
pub open spec fn range_text(span: Span) -> Seq<char> {
    seq!['['] + decimal(span.start as nat) + seq!['-'] + decimal(span.end as nat) + seq![']']
}

/// The label of a match in the list: the ordinal and the byte range, each
/// left-aligned in its column and followed by a space.
pub open spec fn label_text(ordinal: nat, span: Span) -> Seq<char> {
    left_aligned(ordinal_text(ordinal), ORDINAL_WIDTH as nat).push(' ') + left_aligned(
        range_text(span),
        RANGE_WIDTH as nat,
    ).push(' ')
}

/// Appends the character of one decimal digit.
fn push_digit(out: &mut String, digit: usize)
    requires
        digit < 10,
    ensures
        final(out)@ == old(out)@.push(digit_char(digit as nat)),
{
    proof {
        reveal_strlit("0");
        reveal_strlit("1");
        reveal_strlit("2");
        reveal_strlit("3");
        reveal_strlit("4");
        reveal_strlit("5");
        reveal_strlit("6");
        reveal_strlit("7");
        reveal_strlit("8");
        reveal_strlit("9");
    }
    let text = if digit == 0 {
        "0"
    } else if digit == 1 {
        "1"
    } else if digit == 2 {
        "2"
    } else if digit == 3 {
        "3"
    } else if digit == 4 {
        "4"
    } else if digit == 5 {
        "5"
    } else if digit == 6 {
        "6"
    } else if digit == 7 {
        "7"
    } else if digit == 8 {
        "8"
    } else {
        "9"
    };
    assert(text@ == seq![digit_char(digit as nat)]);
    out.append(text);
}

/// Appends the decimal numeral of `n`.
pub fn push_decimal(out: &mut String, n: usize)
    ensures
        final(out)@ == old(out)@ + decimal(n as nat),
    decreases n,
{
    if n >= 10 {
        push_decimal(out, n / 10);
    }
    push_digit(out, n % 10);
}

/// The decimal numeral of `n`.
pub fn to_decimal(n: usize) -> (numeral: String)
    ensures
        numeral@ == decimal(n as nat),
{
    let mut numeral = String::new();
    push_decimal(&mut numeral, n);
    numeral
}

/// Appends spaces to `out` until it is `width` characters wide.
fn fill_column(out: &mut String, width: usize)
    ensures
        final(out)@ == left_aligned(old(out)@, width as nat),
{
    proof {
        reveal_strlit(" ");
    }
    let mut filled: usize = out.as_str().unicode_len();
    assert(out@ == old(out)@ + spaces(0));
    while filled < width
        invariant
            filled == out@.len(),
            old(out)@.len() <= filled,
            filled <= width || filled == old(out)@.len(),
            out@ == old(out)@ + spaces((filled - old(out)@.len()) as nat),
            " "@ == seq![' '],
        decreases width - filled,
    {
        out.append(" ");
        filled += 1;
        assert(out@ == old(out)@ + spaces((filled - old(out)@.len()) as nat));
    }
}

/// Writes the label of the match with the given ordinal and whole-match span.
pub fn list_label(ordinal: usize, span: Span) -> (label: String)
    ensures
        label@ == label_text(ordinal as nat, span),
{
    proof {
        reveal_strlit(".");
        reveal_strlit(" ");
        reveal_strlit("[");
        reveal_strlit("-");
        reveal_strlit("]");
    }
    let mut number = to_decimal(ordinal);
    number.append(".");
    assert(number@ == ordinal_text(ordinal as nat));
    fill_column(&mut number, ORDINAL_WIDTH);
    number.append(" ");

    let mut range = String::new();
    range.append("[");
    push_decimal(&mut range, span.start);
    range.append("-");
    push_decimal(&mut range, span.end);
    range.append("]");
    assert(range@ == range_text(span));
    fill_column(&mut range, RANGE_WIDTH);
    range.append(" ");

    number.append(range.as_str());
    number
}

} // verus!
