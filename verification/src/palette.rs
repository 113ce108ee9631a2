//! The cyclic palette from which capture scopes take their colours.

use vstd::prelude::*;

verus! {

/// A background colour of the palette.
#[derive(Clone, Copy, Debug, PartialEq, Eq, Structural)]
pub enum Color {
    Blue,
    Green,
    Magenta,
    Yellow,
}

/// The number of colours in the palette.
pub const PALETTE_SIZE: usize = 4;

/// The colour of the `n`-th scope that a scan opens, counting from zero: the
/// palette is walked in order and starts over after its last colour.
pub open spec fn palette_color(n: nat) -> Color {
    let slot = n % PALETTE_SIZE as nat;
    if slot == 0 {
        Color::Blue
    } else if slot == 1 {
        Color::Green
    } else if slot == 2 {
        Color::Magenta
    } else {
        Color::Yellow
    }
}

/// Picks the palette colour at `index`, wrapping around the palette's end.
pub fn color_at(index: usize) -> (color: Color)
    ensures
        color == palette_color(index as nat),
{
    let slot: usize = index % PALETTE_SIZE;
    if slot == 0 {
        Color::Blue
    } else if slot == 1 {
        Color::Green
    } else if slot == 2 {
        Color::Magenta
    } else {
        Color::Yellow
    }
}

} // verus!
