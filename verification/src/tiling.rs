//! What holds of the pieces that show a subject: with no match the subject
//! stays as it is, and with matches in order the pieces tile the subject from
//! its first byte to its last, in rising order of their offsets.

use vstd::prelude::*;
use crate::matcher::found_in;
use crate::nesting::well_nested;
use crate::partition::{lemma_regions_partition, partitions};
use crate::region::{regions_of, Region};
use crate::render::{colored_pieces, highlighted_pieces, laid_out, Piece};
use crate::span::Span;

verus! {

/// The matches lie in order in a subject of `length` bytes: the spans of each
/// nest, no match reaches past the subject's end, and each match ends before
/// the next one starts.
pub open spec fn matches_in_order(length: usize, matches: Seq<Seq<Option<Span>>>) -> bool {
    &&& forall|i: int|
        0 <= i < matches.len() ==> well_nested(#[trigger] matches[i]) && matches[i][0]->0.end
            <= length
    &&& forall|i: int, j: int|
        0 <= i < j < matches.len() ==> (#[trigger] matches[i])[0]->0.end <= (
        #[trigger] matches[j])[0]->0.start
}

/// The pieces tile the text from `from` to `to`: none ends before it starts,
/// the first starts at `from`, each next one starts where the one before it
/// ends, and the last ends at `to`. No pieces tile an empty stretch.
pub open spec fn tiles(pieces: Seq<Piece>, from: usize, to: usize) -> bool {
    &&& forall|i: int| 0 <= i < pieces.len() ==> (#[trigger] pieces[i]).start <= pieces[i].end
    &&& forall|i: int, j: int|
        0 <= i && j == i + 1 && j < pieces.len() ==> (#[trigger] pieces[i]).end == (
        #[trigger] pieces[j]).start
    &&& if pieces.len() == 0 {
        from == to
    } else {
        pieces[0].start == from && pieces.last().end == to
    }
}

/// The slices of `text` that the pieces name, joined in order: the text as
/// it is shown, colours left aside.
pub open spec fn pieces_text(text: Seq<u8>, pieces: Seq<Piece>) -> Seq<u8>
    decreases pieces.len(),
{
    if pieces.len() == 0 {
        Seq::empty()
    } else {
        pieces_text(text, pieces.drop_last()) + text.subrange(
            pieces.last().start as int,
            pieces.last().end as int,
        )
    }
}

proof fn lemma_tiles_push(pieces: Seq<Piece>, from: usize, piece: Piece)
    requires
        tiles(pieces, from, piece.start),
        piece.start <= piece.end,
    ensures
        tiles(pieces.push(piece), from, piece.end),
{
    let longer = pieces.push(piece);
    assert forall|i: int, j: int| 0 <= i && j == i + 1 && j < longer.len() implies (
    #[trigger] longer[i]).end == (#[trigger] longer[j]).start by {
        if j < pieces.len() {
            assert(longer[i] == pieces[i]);
            assert(longer[j] == pieces[j]);
        } else {
            assert(longer[i] == pieces.last());
        }
    }
    if pieces.len() > 0 {
        assert(longer[0] == pieces[0]);
    }
}

proof fn lemma_tiles_append(front: Seq<Piece>, back: Seq<Piece>, from: usize, mid: usize, to: usize)
    requires
        tiles(front, from, mid),
        tiles(back, mid, to),
    ensures
        tiles(front + back, from, to),
    decreases back.len(),
{
    if back.len() == 0 {
        assert(front + back == front);
    } else {
        let last = back.last();
        let rest = back.drop_last();
        assert forall|i: int, j: int| 0 <= i && j == i + 1 && j < rest.len() implies (
        #[trigger] rest[i]).end == (#[trigger] rest[j]).start by {
            assert(rest[i] == back[i]);
            assert(rest[j] == back[j]);
        }
        assert forall|i: int| 0 <= i < rest.len() implies (#[trigger] rest[i]).start
            <= rest[i].end by {
            assert(rest[i] == back[i]);
        }
        if rest.len() > 0 {
            assert(rest[0] == back[0]);
            assert(rest.last() == back[back.len() - 2]);
        }
        assert(tiles(rest, mid, last.start));
        lemma_tiles_append(front, rest, from, mid, last.start);
        lemma_tiles_push(front + rest, from, last);
        assert((front + rest).push(last) == front + back);
    }
}

proof fn lemma_colored_tiles(regions: Seq<Region>, span: Span)
    requires
        partitions(regions, span),
    ensures
        tiles(colored_pieces(regions), span.start, span.end),
{
    let pieces = colored_pieces(regions);
    assert forall|i: int| 0 <= i < pieces.len() implies (#[trigger] pieces[i]).start
        <= pieces[i].end by {
        assert(regions[i].start <= regions[i].end);
    }
    assert forall|i: int, j: int| 0 <= i && j == i + 1 && j < pieces.len() implies (
    #[trigger] pieces[i]).end == (#[trigger] pieces[j]).start by {
        assert(regions[i].end == regions[j].start);
    }
}

proof fn lemma_tiles_forward(pieces: Seq<Piece>, from: usize, to: usize)
    requires
        tiles(pieces, from, to),
    ensures
        from <= to,
    decreases pieces.len(),
{
    if pieces.len() > 1 {
        let rest = pieces.drop_last();
        assert forall|i: int, j: int| 0 <= i && j == i + 1 && j < rest.len() implies (
        #[trigger] rest[i]).end == (#[trigger] rest[j]).start by {
            assert(rest[i] == pieces[i]);
            assert(rest[j] == pieces[j]);
        }
        assert forall|i: int| 0 <= i < rest.len() implies (#[trigger] rest[i]).start
            <= rest[i].end by {
            assert(rest[i] == pieces[i]);
        }
        assert(rest[0] == pieces[0]);
        assert(rest.last() == pieces[pieces.len() - 2]);
        lemma_tiles_forward(rest, from, pieces.last().start);
    }
}

proof fn lemma_laid_out_tiles(length: usize, matches: Seq<Seq<Option<Span>>>)
    requires
        matches_in_order(length, matches),
    ensures
        tiles(laid_out(matches).pieces, 0, laid_out(matches).last),
        laid_out(matches).last <= length,
        matches.len() > 0 ==> laid_out(matches).last == matches.last()[0]->0.end,
    decreases matches.len(),
{
    if matches.len() > 0 {
        let earlier = matches.drop_last();
        let groups = matches.last();
        let whole = groups[0]->0;
        assert forall|i: int| 0 <= i < earlier.len() implies well_nested(#[trigger] earlier[i])
            && earlier[i][0]->0.end <= length by {
            assert(earlier[i] == matches[i]);
        }
        assert forall|i: int, j: int| 0 <= i < j < earlier.len() implies (
        #[trigger] earlier[i])[0]->0.end <= (#[trigger] earlier[j])[0]->0.start by {
            assert(earlier[i] == matches[i]);
            assert(earlier[j] == matches[j]);
        }
        lemma_laid_out_tiles(length, earlier);
        let before = laid_out(earlier);
        if earlier.len() > 0 {
            assert(earlier.last() == matches[matches.len() - 2]);
            assert(matches[matches.len() - 2][0]->0.end <= matches[matches.len() - 1][0]->0.start);
        }
        assert(well_nested(matches[matches.len() - 1]));
        let gap = Piece { start: before.last, end: whole.start, color: None };
        lemma_tiles_push(before.pieces, 0, gap);
        lemma_regions_partition(groups);
        lemma_colored_tiles(regions_of(groups), whole);
        lemma_tiles_append(
            before.pieces.push(gap),
            colored_pieces(regions_of(groups)),
            0,
            whole.start,
            whole.end,
        );
    }
}

/// With no match the subject is shown as it is: nothing where it is empty,
/// else one plain piece from its first byte to its last.
pub proof fn lemma_no_match_unchanged(length: usize)
    ensures
        highlighted_pieces(length, Seq::empty()) == (if length > 0 {
            seq![Piece { start: 0, end: length, color: None }]
        } else {
            Seq::empty()
        }),
{
    let none = Seq::<Seq<Option<Span>>>::empty();
    assert(laid_out(none).pieces == Seq::<Piece>::empty());
    assert(highlighted_pieces(length, none) =~= (if length > 0 {
        seq![Piece { start: 0, end: length, color: None }]
    } else {
        Seq::empty()
    }));
}

/// With matches in order the pieces tile the subject: they lead from its
/// first byte to its last without a gap or an overlap.
pub proof fn lemma_pieces_tile(length: usize, matches: Seq<Seq<Option<Span>>>)
    requires
        matches_in_order(length, matches),
    ensures
        tiles(highlighted_pieces(length, matches), 0, length),
{
    lemma_laid_out_tiles(length, matches);
    let body = laid_out(matches);
    if body.last < length {
        lemma_tiles_push(body.pieces, 0, Piece { start: body.last, end: length, color: None });
    }
}

/// Pieces that tile a stretch of the text come in rising order of their
/// offsets: each ends no later than any later one starts, and starts before
/// it unless it is empty.
pub proof fn lemma_tiles_rise(pieces: Seq<Piece>, from: usize, to: usize, i: int, j: int)
    requires
        tiles(pieces, from, to),
        0 <= i < j < pieces.len(),
    ensures
        pieces[i].end <= pieces[j].start,
        pieces[i].start <= pieces[j].start,
        pieces[i].start < pieces[i].end ==> pieces[i].start < pieces[j].start,
    decreases j - i,
{
    if j > i + 1 {
        lemma_tiles_rise(pieces, from, to, i, j - 1);
        assert(pieces[j - 1].end == pieces[j].start);
    }
}

/// Pieces that tile a stretch of the text spell, joined in order, the text
/// of that stretch.
pub proof fn lemma_tiles_text(text: Seq<u8>, pieces: Seq<Piece>, from: usize, to: usize)
    requires
        tiles(pieces, from, to),
        to <= text.len(),
    ensures
        from <= to,
        pieces_text(text, pieces) == text.subrange(from as int, to as int),
    decreases pieces.len(),
{
    lemma_tiles_forward(pieces, from, to);
    if pieces.len() == 0 {
        assert(pieces_text(text, pieces) =~= text.subrange(from as int, to as int));
    } else {
        let rest = pieces.drop_last();
        let last = pieces.last();
        assert forall|i: int, j: int| 0 <= i && j == i + 1 && j < rest.len() implies (
        #[trigger] rest[i]).end == (#[trigger] rest[j]).start by {
            assert(rest[i] == pieces[i]);
            assert(rest[j] == pieces[j]);
        }
        assert forall|i: int| 0 <= i < rest.len() implies (#[trigger] rest[i]).start
            <= rest[i].end by {
            assert(rest[i] == pieces[i]);
        }
        if rest.len() > 0 {
            assert(rest[0] == pieces[0]);
            assert(rest.last() == pieces[pieces.len() - 2]);
        }
        assert(tiles(rest, from, last.start));
        lemma_tiles_text(text, rest, from, last.start);
        assert(pieces_text(text, pieces) =~= text.subrange(from as int, to as int));
    }
}

/// With matches in order the subject is shown whole: the pieces spell,
/// joined in order, the subject from its first byte to its last, so the text
/// before, between and after the matches stays as it is.
pub proof fn lemma_subject_preserved(text: Seq<u8>, length: usize, matches: Seq<Seq<Option<Span>>>)
    requires
        length == text.len(),
        matches_in_order(length, matches),
    ensures
        pieces_text(text, highlighted_pieces(length, matches)) == text,
{
    lemma_pieces_tile(length, matches);
    lemma_tiles_text(text, highlighted_pieces(length, matches), 0, length);
    assert(text.subrange(0, length as int) == text);
}

/// What the collector finds lies in order in the subject as soon as the
/// spans of each match nest.
pub proof fn lemma_found_in_order(length: usize, found: Seq<Seq<Option<Span>>>)
    requires
        found_in(found, length),
        forall|i: int| 0 <= i < found.len() ==> well_nested(#[trigger] found[i]),
    ensures
        matches_in_order(length, found),
{
    assert forall|i: int| 0 <= i < found.len() implies (#[trigger] found[i])[0]->0.end
        <= length by {
        assert(found[i][0] is Some);
    }
}

} // verus!
