//! The region engine: from the capture spans of one match to the coloured
//! regions that partition the match's text.
//!
//! The spans are visited once, in index order. A stack holds the scopes that
//! are open at the moment, innermost last, and a cursor marks how far the text
//! has been given out. A span that ends after the innermost open scope closes
//! that scope first; each closing gives out the text up to the scope's end in
//! the scope's colour. The text between the cursor and a newly opened span
//! belongs to the scope around it.

use vstd::prelude::*;
use crate::colors::{lemma_regions_colored, rightly_colored};
use crate::nesting::well_nested;
use crate::palette::{color_at, palette_color, Color, PALETTE_SIZE};
use crate::partition::{
    contiguous, lemma_regions_contiguous, lemma_regions_partition, lemma_whole_match_alone,
    partitions,
};
use crate::span::{valid_captures, CaptureList, Span};

verus! {

/// A capture span that the scan has opened and not yet closed, with the
/// colour it was given.
#[derive(Clone, Copy, Debug, PartialEq, Eq, Structural)]
pub struct Scope {
    pub start: usize,
    pub end: usize,
    pub color: Color,
}

/// A slice `[start, end)` of the subject and the colour it is shown in.
#[derive(Clone, Copy, Debug, PartialEq, Eq, Structural)]
pub struct Region {
    pub start: usize,
    pub end: usize,
    pub color: Color,
}

/// The state of a scan over a capture list.
pub struct Scan {
    /// The open scopes, outermost first.
    pub stack: Seq<Scope>,
    /// The offset up to which regions have been given out.
    pub cursor: usize,
    /// The palette index of the next scope to open.
    pub next: nat,
    /// The regions given out so far, in order.
    pub emitted: Seq<Region>,
}

impl Scan {
    /// The state before any span is visited.
    pub open spec fn start_at(cursor: usize) -> Scan {
        Scan { stack: Seq::empty(), cursor, next: 0, emitted: Seq::empty() }
    }

    /// Closes the innermost open scope: the text from the cursor to the
    /// scope's end is given out in the scope's colour.
    pub open spec fn close(self) -> Scan
        recommends
            self.stack.len() > 0,
    {
        let top = self.stack.last();
        Scan {
            stack: self.stack.drop_last(),
            cursor: top.end,
            next: self.next,
            emitted: self.emitted.push(
                Region { start: self.cursor, end: top.end, color: top.color },
            ),
        }
    }

    /// Closes open scopes for as long as the innermost one ends before `end`.
    pub open spec fn unwind(self, end: usize) -> Scan
        decreases self.stack.len(),
    {
        if self.stack.len() > 0 && end > self.stack.last().end {
            self.close().unwind(end)
        } else {
            self
        }
    }

    /// Opens a scope for `span` in the next colour of the palette. Inside an
    /// open scope, the text from the cursor to the span's start is first
    /// given out in that scope's colour.
    pub open spec fn open(self, span: Span) -> Scan {
        let scope = Scope { start: span.start, end: span.end, color: palette_color(self.next) };
        let next = (self.next + 1) % PALETTE_SIZE as nat;
        if self.stack.len() > 0 {
            Scan {
                stack: self.stack.push(scope),
                cursor: span.start,
                next,
                emitted: self.emitted.push(
                    Region {
                        start: self.cursor,
                        end: span.start,
                        color: self.stack.last().color,
                    },
                ),
            }
        } else {
            Scan { stack: self.stack.push(scope), cursor: self.cursor, next, emitted: self.emitted }
        }
    }

    /// Visits one group: an absent group changes nothing; a present one
    /// closes the scopes that end before it does and opens its own.
    pub open spec fn visit(self, group: Option<Span>) -> Scan {
        match group {
            Some(span) => self.unwind(span.end).open(span),
            None => self,
        }
    }

    /// Visits the groups in index order.
    pub open spec fn visit_all(self, groups: Seq<Option<Span>>) -> Scan
        decreases groups.len(),
    {
        if groups.len() == 0 {
            self
        } else {
            self.visit_all(groups.drop_last()).visit(groups.last())
        }
    }

    /// Closes every scope that is still open, innermost first.
    pub open spec fn finish(self) -> Scan
        decreases self.stack.len(),
    {
        if self.stack.len() > 0 {
            self.close().finish()
        } else {
            self
        }
    }
}

/// The regions of a match with the capture spans `groups`: what a scan that
/// starts at the match's start has given out after visiting every group and
/// closing every scope.
pub open spec fn regions_of(groups: Seq<Option<Span>>) -> Seq<Region>
    recommends
        valid_captures(groups),
{
    Scan::start_at(groups[0]->0.start).visit_all(groups).finish().emitted
}

/// The running scan: the state of `Scan` in executable form.
struct Scanner {
    stack: Vec<Scope>,
    cursor: usize,
    next: usize,
    emitted: Vec<Region>,
}

impl Scanner {
    /// The state that the scanner is in.
    spec fn view(&self) -> Scan {
        Scan {
            stack: self.stack@,
            cursor: self.cursor,
            next: self.next as nat,
            emitted: self.emitted@,
        }
    }

    /// A scanner that has visited nothing yet.
    fn start_at(cursor: usize) -> (scanner: Scanner)
        ensures
            scanner@ == Scan::start_at(cursor),
    {
        Scanner { stack: Vec::new(), cursor, next: 0, emitted: Vec::new() }
    }

    /// Closes the innermost open scope.
    fn close(&mut self)
        requires
            old(self)@.stack.len() > 0,
        ensures
            final(self)@ == old(self)@.close(),
    {
        let top = self.stack[self.stack.len() - 1];
        self.stack.pop();
        self.emitted.push(Region { start: self.cursor, end: top.end, color: top.color });
        self.cursor = top.end;
    }

    /// Closes open scopes for as long as the innermost one ends before `end`.
    fn unwind(&mut self, end: usize)
        ensures
            final(self)@ == old(self)@.unwind(end),
            final(self)@.next == old(self)@.next,
    {
        while self.stack.len() > 0 && end > self.stack[self.stack.len() - 1].end
            invariant
                self@.unwind(end) == old(self)@.unwind(end),
                self@.next == old(self)@.next,
            decreases self.stack.len(),
        {
            self.close();
        }
    }

    /// Opens a scope for `span` in the next colour of the palette.
    fn open(&mut self, span: Span)
        requires
            old(self)@.next < PALETTE_SIZE,
        ensures
            final(self)@ == old(self)@.open(span),
            final(self)@.next < PALETTE_SIZE,
    {
        let scope = Scope { start: span.start, end: span.end, color: color_at(self.next) };
        if self.stack.len() > 0 {
            let around = self.stack[self.stack.len() - 1];
            self.emitted.push(Region { start: self.cursor, end: span.start, color: around.color });
            self.cursor = span.start;
        }
        self.stack.push(scope);
        self.next = (self.next + 1) % PALETTE_SIZE;
    }

    /// Visits one group.
    fn visit(&mut self, group: Option<Span>)
        requires
            old(self)@.next < PALETTE_SIZE,
        ensures
            final(self)@ == old(self)@.visit(group),
            final(self)@.next < PALETTE_SIZE,
    {
        match group {
            Some(span) => {
                self.unwind(span.end);
                self.open(span);
            },
            None => {},
        }
    }

    /// Closes every scope that is still open.
    fn finish(&mut self)
        ensures
            final(self)@ == old(self)@.finish(),
    {
        while self.stack.len() > 0
            invariant
                self@.finish() == old(self)@.finish(),
            decreases self.stack.len(),
        {
            self.close();
        }
    }
}

/// Lays a match out as coloured regions.
///
/// The spans are visited in index order, the whole match first, so the whole
/// match is the outermost scope and takes the first colour of the palette.
/// Each later span that is present takes the next colour, whatever its depth;
/// an absent group takes none.
///
/// The regions follow one another without a gap from the start of the match.
/// Where the spans nest they cut the whole match into pieces, and each piece
/// that is not empty has the colour of the innermost group around it; where
/// they do not nest, a region may end before it starts.
pub fn highlight(captures: &CaptureList) -> (regions: Vec<Region>)
    ensures
        regions@ == regions_of(captures@),
        regions@.len() > 0,
        regions@[0].start == captures@[0]->0.start,
        contiguous(regions@),
        well_nested(captures@) ==> partitions(regions@, captures@[0]->0),
        well_nested(captures@) ==> forall|r: int|
            0 <= r < regions@.len() && (#[trigger] regions@[r]).start < regions@[r].end
                ==> rightly_colored(captures@, regions@[r]),
        captures@.len() == 1 ==> regions@ == seq![
            Region {
                start: captures@[0]->0.start,
                end: captures@[0]->0.end,
                color: Color::Blue,
            },
        ],
{
    let groups = captures.groups();
    let whole = captures.whole();
    let mut scanner = Scanner::start_at(whole.start);
    let mut i: usize = 0;
    while i < groups.len()
        invariant
            i <= groups.len(),
            scanner@ == Scan::start_at(whole.start).visit_all(groups@.take(i as int)),
            scanner@.next < PALETTE_SIZE,
        decreases groups.len() - i,
    {
        scanner.visit(groups[i]);
        proof {
            let upto = groups@.take(i + 1);
            assert(upto.drop_last() == groups@.take(i as int));
            assert(upto.last() == groups@[i as int]);
        }
        i += 1;
    }
    assert(groups@.take(i as int) == groups@);
    scanner.finish();
    proof {
        lemma_regions_contiguous(groups@);
        if well_nested(groups@) {
            lemma_regions_partition(groups@);
            let laid = regions_of(groups@);
            assert forall|r: int|
                0 <= r < laid.len() && (#[trigger] laid[r]).start < laid[r].end implies rightly_colored(
                groups@,
                laid[r],
            ) by {
                lemma_regions_colored(groups@, r);
            }
        }
        if groups@.len() == 1 {
            lemma_whole_match_alone(groups@);
        }
    }
    scanner.emitted
}

} // verus!
