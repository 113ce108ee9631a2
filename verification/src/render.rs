//! The renderer: what is shown for a subject and its matches, as values that
//! name slices of the subject by their offsets. Writing them out is left to
//! the caller.

use vstd::prelude::*;
use vstd::string::*;
use crate::label::{label_text, list_label};
use crate::palette::Color;
use crate::region::{highlight, regions_of, Region};
use crate::span::{capture_views, CaptureList, Span};
use crate::tiling::{lemma_no_match_unchanged, lemma_pieces_tile, matches_in_order, tiles};

verus! {

/// A slice `[start, end)` of the subject as it is shown: in a colour where it
/// belongs to a match, plain where it does not.
#[derive(Clone, Copy, Debug, PartialEq, Eq, Structural)]
pub struct Piece {
    pub start: usize,
    pub end: usize,
    pub color: Option<Color>,
}

/// One line of the list of matches: the label of the match and the regions
/// of its text.
#[derive(Debug)]
pub struct ListLine {
    pub label: String,
    pub regions: Vec<Region>,
}

/// A region as a piece in the region's colour.
pub open spec fn colored_piece(region: Region) -> Piece {
    Piece { start: region.start, end: region.end, color: Some(region.color) }
}

/// The regions of a match as pieces, each in its colour.
pub open spec fn colored_pieces(regions: Seq<Region>) -> Seq<Piece> {
    regions.map_values(|region: Region| colored_piece(region))
}

/// How far a walk over the matches has come: the pieces shown so far, and
/// the offset at which the last match ended.
pub struct Layout {
    pub pieces: Seq<Piece>,
    pub last: usize,
}

/// The walk over the matches in order. Before each match comes, plain, the
/// text since the end of the match before it, or since the subject's start;
/// then come the regions of the match, each in its colour.
pub open spec fn laid_out(matches: Seq<Seq<Option<Span>>>) -> Layout
    decreases matches.len(),
{
    if matches.len() == 0 {
        Layout { pieces: Seq::empty(), last: 0 }
    } else {
        let before = laid_out(matches.drop_last());
        let whole = matches.last()[0]->0;
        Layout {
            pieces: before.pieces.push(
                Piece { start: before.last, end: whole.start, color: None },
            ) + colored_pieces(regions_of(matches.last())),
            last: whole.end,
        }
    }
}

/// The pieces that show a subject of `length` bytes with its matches
/// highlighted: the walk over the matches and then, plain, the text that is
/// left after the last match, where any is left.
pub open spec fn highlighted_pieces(length: usize, matches: Seq<Seq<Option<Span>>>) -> Seq<Piece> {
    let body = laid_out(matches);
    if body.last < length {
        body.pieces.push(Piece { start: body.last, end: length, color: None })
    } else {
        body.pieces
    }
}

/// Appends the regions of one match to the pieces, each in its colour.
fn push_regions(pieces: &mut Vec<Piece>, regions: &Vec<Region>)
    ensures
        final(pieces)@ == old(pieces)@ + colored_pieces(regions@),
{
    let mut i: usize = 0;
    while i < regions.len()
        invariant
            i <= regions.len(),
            pieces@ == old(pieces)@ + colored_pieces(regions@.take(i as int)),
        decreases regions.len() - i,
    {
        let region = regions[i];
        pieces.push(Piece { start: region.start, end: region.end, color: Some(region.color) });
        assert(regions@.take(i + 1) == regions@.take(i as int).push(region));
        assert(pieces@ == old(pieces)@ + colored_pieces(regions@.take(i + 1)));
        i += 1;
    }
    assert(regions@.take(i as int) == regions@);
}

/// Lays the subject out with its matches highlighted in place.
///
/// The matches are taken in the order given. The text before, between and
/// after them is shown plain, the text of each match as the regions of the
/// match. With no match the whole subject is one plain piece. Where the
/// matches lie in order in the subject, the pieces tile the subject.
pub fn render_highlighted(subject: &str, matches: &Vec<CaptureList>) -> (pieces: Vec<Piece>)
    ensures
        pieces@ == highlighted_pieces(subject.len(), capture_views(matches@)),
        matches_in_order(subject.len(), capture_views(matches@)) ==> tiles(
            pieces@,
            0,
            subject.len(),
        ),
        matches@.len() == 0 ==> pieces@ == (if subject.len() > 0 {
            seq![Piece { start: 0, end: subject.len(), color: None }]
        } else {
            Seq::empty()
        }),
{
    let ghost views = capture_views(matches@);
    let mut pieces: Vec<Piece> = Vec::new();
    let mut last: usize = 0;
    let mut i: usize = 0;
    while i < matches.len()
        invariant
            i <= matches.len(),
            views == capture_views(matches@),
            pieces@ == laid_out(views.take(i as int)).pieces,
            last == laid_out(views.take(i as int)).last,
        decreases matches.len() - i,
    {
        let whole = matches[i].whole();
        let regions = highlight(&matches[i]);
        pieces.push(Piece { start: last, end: whole.start, color: None });
        push_regions(&mut pieces, &regions);
        last = whole.end;
        proof {
            let upto = views.take(i + 1);
            assert(upto.drop_last() == views.take(i as int));
            assert(upto.last() == matches@[i as int]@);
        }
        i += 1;
    }
    assert(views.take(i as int) == views);
    let length = subject.len();
    if last < length {
        pieces.push(Piece { start: last, end: length, color: None });
    }
    proof {
        if matches_in_order(length, views) {
            lemma_pieces_tile(length, views);
        }
        if matches@.len() == 0 {
            assert(views == Seq::<Seq<Option<Span>>>::empty());
            lemma_no_match_unchanged(length);
        }
    }
    pieces
}

/// Lays the matches out as a list, one line for each match in the order
/// given: the label with the match's ordinal, counted from one, and the byte
/// range of the whole match, and then the regions of the match. With no match
/// there is no line.
pub fn render_list(matches: &Vec<CaptureList>) -> (lines: Vec<ListLine>)
    ensures
        lines@.len() == matches@.len(),
        forall|i: int|
            0 <= i < lines@.len() ==> {
                &&& (#[trigger] lines@[i]).label@ == label_text(
                    (i + 1) as nat,
                    matches@[i]@[0]->0,
                )
                &&& lines@[i].regions@ == regions_of(matches@[i]@)
            },
{
    let mut lines: Vec<ListLine> = Vec::new();
    let mut i: usize = 0;
    while i < matches.len()
        invariant
            i <= matches.len(),
            lines@.len() == i,
            forall|k: int|
                0 <= k < i ==> {
                    &&& (#[trigger] lines@[k]).label@ == label_text(
                        (k + 1) as nat,
                        matches@[k]@[0]->0,
                    )
                    &&& lines@[k].regions@ == regions_of(matches@[k]@)
                },
        decreases matches.len() - i,
    {
        let whole = matches[i].whole();
        let label = list_label(i + 1, whole);
        let regions = highlight(&matches[i]);
        lines.push(ListLine { label, regions });
        i += 1;
    }
    lines
}

} // verus!
