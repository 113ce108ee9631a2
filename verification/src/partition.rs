//! What holds of the regions of a match: they follow one another without a
//! gap, and on a capture list whose spans nest they partition the match's
//! text.

use vstd::prelude::*;
use crate::nesting::{in_order, well_nested};
use crate::palette::Color;
use crate::region::{regions_of, Region, Scan, Scope};
use crate::span::{valid_captures, Span};

verus! {

/// Each region but the last ends where the next one starts.
pub open spec fn contiguous(regions: Seq<Region>) -> bool {
    forall|i: int, j: int|
        0 <= i && j == i + 1 && j < regions.len() ==> (#[trigger] regions[i]).end == (
        #[trigger] regions[j]).start
}

/// No region ends before it starts.
pub open spec fn forward(regions: Seq<Region>) -> bool {
    forall|i: int| 0 <= i < regions.len() ==> (#[trigger] regions[i]).start <= regions[i].end
}

/// The regions cut `span` into pieces: there is at least one, the first
/// starts where the span starts, each next one starts where the one before it
/// ends, and the last ends where the span ends.
pub open spec fn partitions(regions: Seq<Region>, span: Span) -> bool {
    &&& regions.len() > 0
    &&& regions[0].start == span.start
    &&& regions.last().end == span.end
    &&& contiguous(regions)
    &&& forward(regions)
}

/// The slices of `text` that the regions name, joined in order.
pub open spec fn joined_text(text: Seq<u8>, regions: Seq<Region>) -> Seq<u8>
    decreases regions.len(),
{
    if regions.len() == 0 {
        Seq::empty()
    } else {
        joined_text(text, regions.drop_last()) + text.subrange(
            regions.last().start as int,
            regions.last().end as int,
        )
    }
}

/// The regions given out so far lead without a gap from `from` to `cursor`.
spec fn trail(emitted: Seq<Region>, from: usize, cursor: usize) -> bool {
    &&& contiguous(emitted)
    &&& if emitted.len() == 0 {
        from == cursor
    } else {
        emitted[0].start == from && emitted.last().end == cursor
    }
}

/// A state whose regions so far lead forward to the cursor, whose open scopes
/// end no later the deeper they lie, and whose cursor has not passed the end
/// of the innermost one.
spec fn shaped(st: Scan, from: usize) -> bool {
    &&& trail(st.emitted, from, st.cursor)
    &&& forward(st.emitted)
    &&& forall|m: int, n: int|
        0 <= m < n < st.stack.len() ==> (#[trigger] st.stack[n]).end <= (#[trigger] st.stack[m]).end
    &&& st.stack.len() > 0 ==> st.cursor <= st.stack.last().end
}

/// The span that a scope was opened for.
spec fn span_of(scope: Scope) -> Span {
    Span { start: scope.start, end: scope.end }
}

/// What holds of a scan over nested captures once the groups below `k` are
/// visited: the whole match is the outermost open scope, every open scope
/// agrees with every group still to come, and the cursor has not passed the
/// start of any of them.
spec fn scanning(st: Scan, groups: Seq<Option<Span>>, k: int) -> bool {
    &&& shaped(st, groups[0]->0.start)
    &&& st.stack.len() > 0
    &&& st.stack[0].end == groups[0]->0.end
    &&& forall|m: int, j: int|
        0 <= m < st.stack.len() && k <= j < groups.len() && groups[j] is Some ==> in_order(
            span_of(#[trigger] st.stack[m]),
            (#[trigger] groups[j])->0,
        )
    &&& forall|j: int|
        k <= j < groups.len() && groups[j] is Some ==> st.cursor <= (#[trigger] groups[j])->0.start
}

proof fn lemma_close_trail(st: Scan, from: usize)
    requires
        trail(st.emitted, from, st.cursor),
        st.stack.len() > 0,
    ensures
        trail(st.close().emitted, from, st.close().cursor),
{
}

proof fn lemma_close_shaped(st: Scan, from: usize)
    requires
        shaped(st, from),
        st.stack.len() > 0,
    ensures
        shaped(st.close(), from),
{
    lemma_close_trail(st, from);
    let after = st.close();
    assert forall|m: int, n: int| 0 <= m < n < after.stack.len() implies (#[trigger] after.stack[n]).end
        <= (#[trigger] after.stack[m]).end by {
        assert(after.stack[n] == st.stack[n]);
        assert(after.stack[m] == st.stack[m]);
    }
    if after.stack.len() > 0 {
        assert(after.stack.last() == st.stack[st.stack.len() - 2]);
        assert(st.stack[st.stack.len() - 1].end <= st.stack[st.stack.len() - 2].end);
    }
}

proof fn lemma_unwind_trail(st: Scan, end: usize, from: usize)
    requires
        trail(st.emitted, from, st.cursor),
    ensures
        trail(st.unwind(end).emitted, from, st.unwind(end).cursor),
        st.unwind(end).stack.len() + st.unwind(end).emitted.len() == st.stack.len()
            + st.emitted.len(),
    decreases st.stack.len(),
{
    if st.stack.len() > 0 && end > st.stack.last().end {
        lemma_close_trail(st, from);
        lemma_unwind_trail(st.close(), end, from);
    }
}

proof fn lemma_finish_trail(st: Scan, from: usize)
    requires
        trail(st.emitted, from, st.cursor),
    ensures
        trail(st.finish().emitted, from, st.finish().cursor),
        st.finish().emitted.len() == st.stack.len() + st.emitted.len(),
    decreases st.stack.len(),
{
    if st.stack.len() > 0 {
        lemma_close_trail(st, from);
        lemma_finish_trail(st.close(), from);
    }
}

proof fn lemma_visit_all_trail(st: Scan, groups: Seq<Option<Span>>, from: usize)
    requires
        trail(st.emitted, from, st.cursor),
    ensures
        trail(st.visit_all(groups).emitted, from, st.visit_all(groups).cursor),
        st.visit_all(groups).stack.len() + st.visit_all(groups).emitted.len() >= st.stack.len()
            + st.emitted.len(),
        (exists|i: int| 0 <= i < groups.len() && groups[i] is Some) ==> st.visit_all(
            groups,
        ).stack.len() + st.visit_all(groups).emitted.len() > 0,
    decreases groups.len(),
{
    if groups.len() > 0 {
        let before = st.visit_all(groups.drop_last());
        lemma_visit_all_trail(st, groups.drop_last(), from);
        match groups.last() {
            Some(span) => {
                lemma_unwind_trail(before, span.end, from);
            },
            None => {
                if exists|i: int| 0 <= i < groups.len() && groups[i] is Some {
                    let i = choose|i: int| 0 <= i < groups.len() && groups[i] is Some;
                    assert(groups.drop_last()[i] is Some);
                }
            },
        }
    }
}

/// The regions of a match follow one another without a gap, whatever the
/// capture spans are: there is at least one region, the first starts where
/// the match starts, and each next one starts where the one before it ends.
pub proof fn lemma_regions_contiguous(groups: Seq<Option<Span>>)
    requires
        valid_captures(groups),
    ensures
        regions_of(groups).len() > 0,
        regions_of(groups)[0].start == groups[0]->0.start,
        contiguous(regions_of(groups)),
{
    let from = groups[0]->0.start;
    let start = Scan::start_at(from);
    lemma_visit_all_trail(start, groups, from);
    lemma_finish_trail(start.visit_all(groups), from);
}

proof fn lemma_unwind_shaped(st: Scan, end: usize, from: usize)
    requires
        shaped(st, from),
    ensures
        shaped(st.unwind(end), from),
        st.unwind(end).stack.len() <= st.stack.len(),
        st.unwind(end).stack == st.stack.take(st.unwind(end).stack.len() as int),
        st.unwind(end).stack.len() > 0 ==> end <= st.unwind(end).stack.last().end,
        st.unwind(end).stack.len() == st.stack.len() ==> st.unwind(end) == st,
        st.unwind(end).stack.len() < st.stack.len() ==> {
            let left = st.stack[st.unwind(end).stack.len() as int];
            st.unwind(end).cursor == left.end && left.end < end
        },
    decreases st.stack.len(),
{
    if st.stack.len() > 0 && end > st.stack.last().end {
        let closed = st.close();
        lemma_close_shaped(st, from);
        lemma_unwind_shaped(closed, end, from);
        let kept = closed.unwind(end).stack.len() as int;
        assert(closed.stack.take(kept) == st.stack.take(kept));
        if kept < closed.stack.len() {
            assert(closed.stack[kept] == st.stack[kept]);
        }
    } else {
        assert(st.stack.take(st.stack.len() as int) == st.stack);
    }
}

proof fn lemma_finish_shaped(st: Scan, from: usize)
    requires
        shaped(st, from),
        st.stack.len() > 0,
    ensures
        trail(st.finish().emitted, from, st.stack[0].end),
        forward(st.finish().emitted),
        st.finish().emitted.len() > 0,
    decreases st.stack.len(),
{
    let closed = st.close();
    lemma_close_shaped(st, from);
    if closed.stack.len() > 0 {
        assert(closed.stack[0] == st.stack[0]);
        lemma_finish_shaped(closed, from);
    } else {
        assert(closed.finish() == closed);
    }
}

proof fn lemma_visit_scanning(st: Scan, groups: Seq<Option<Span>>, k: int)
    requires
        well_nested(groups),
        1 <= k < groups.len(),
        scanning(st, groups, k),
    ensures
        scanning(st.visit(groups[k]), groups, k + 1),
{
    let from = groups[0]->0.start;
    match groups[k] {
        Some(span) => {
            let kept = st.unwind(span.end);
            lemma_unwind_shaped(st, span.end, from);
            assert(span.is_within(groups[0]->0));
            if kept.stack.len() < st.stack.len() {
                let left = st.stack[kept.stack.len() as int];
                assert(in_order(span_of(left), span));
                assert(left.end < span.end);
            }
            assert(kept.stack.len() > 0);
            assert(kept.cursor <= span.start);
            assert forall|m: int| 0 <= m < kept.stack.len() implies #[trigger] kept.stack[m]
                == st.stack[m] by {}
            let opened = kept.open(span);
            let scope = opened.stack.last();
            assert(span_of(scope) == span);
            assert forall|m: int, n: int| 0 <= m < n < opened.stack.len() implies (
            #[trigger] opened.stack[n]).end <= (#[trigger] opened.stack[m]).end by {
                assert(opened.stack[m] == kept.stack[m]);
                if n < kept.stack.len() {
                    assert(opened.stack[n] == kept.stack[n]);
                } else {
                    assert(kept.stack[m].end >= kept.stack.last().end);
                }
            }
            assert forall|m: int, j: int|
                0 <= m < opened.stack.len() && k + 1 <= j < groups.len()
                    && groups[j] is Some implies in_order(
                span_of(#[trigger] opened.stack[m]),
                (#[trigger] groups[j])->0,
            ) by {
                if m < kept.stack.len() {
                    assert(opened.stack[m] == st.stack[m]);
                } else {
                    assert(in_order(groups[k]->0, groups[j]->0));
                }
            }
            assert forall|j: int| k + 1 <= j < groups.len() && groups[j] is Some implies opened.cursor
                <= (#[trigger] groups[j])->0.start by {
                assert(in_order(groups[k]->0, groups[j]->0));
            }
            assert(opened.stack[0] == st.stack[0]);
            assert(trail(opened.emitted, from, opened.cursor));
            assert(forward(opened.emitted));
        },
        None => {},
    }
}

proof fn lemma_scan_nested(groups: Seq<Option<Span>>, k: int)
    requires
        well_nested(groups),
        1 <= k <= groups.len(),
    ensures
        scanning(Scan::start_at(groups[0]->0.start).visit_all(groups.take(k)), groups, k),
    decreases k,
{
    let start = Scan::start_at(groups[0]->0.start);
    let upto = groups.take(k);
    assert(upto.drop_last() == groups.take(k - 1));
    assert(upto.last() == groups[k - 1]);
    if k == 1 {
        assert(start.visit_all(upto.drop_last()) == start);
        let first = start.visit(groups[0]);
        assert(start.unwind(groups[0]->0.end) == start);
        assert(first.stack.len() == 1);
        assert(first.emitted.len() == 0);
    } else {
        lemma_scan_nested(groups, k - 1);
        lemma_visit_scanning(start.visit_all(groups.take(k - 1)), groups, k - 1);
    }
}

/// On a capture list whose spans nest, the regions of the match cut the whole
/// match into pieces: they start where the match starts, follow one another
/// without a gap or an overlap, and end where the match ends.
pub proof fn lemma_regions_partition(groups: Seq<Option<Span>>)
    requires
        well_nested(groups),
    ensures
        partitions(regions_of(groups), groups[0]->0),
{
    let from = groups[0]->0.start;
    lemma_scan_nested(groups, groups.len() as int);
    assert(groups.take(groups.len() as int) == groups);
    lemma_finish_shaped(Scan::start_at(from).visit_all(groups), from);
}

/// Regions that cut a span of `text` into pieces spell, joined in order, the
/// text of that span.
pub proof fn lemma_joined_text(text: Seq<u8>, regions: Seq<Region>, span: Span)
    requires
        partitions(regions, span),
        span.end <= text.len(),
    ensures
        joined_text(text, regions) == text.subrange(span.start as int, span.end as int),
    decreases regions.len(),
{
    let last = regions.last();
    let front = regions.drop_last();
    if front.len() == 0 {
        assert(joined_text(text, front) == Seq::<u8>::empty());
        assert(joined_text(text, regions) =~= text.subrange(span.start as int, span.end as int));
    } else {
        let cut = Span { start: span.start, end: last.start };
        assert(front.last() == regions[regions.len() - 2]);
        assert(front[0] == regions[0]);
        assert forall|i: int, j: int| 0 <= i && j == i + 1 && j < front.len() implies (
        #[trigger] front[i]).end == (#[trigger] front[j]).start by {
            assert(front[i] == regions[i]);
            assert(front[j] == regions[j]);
        }
        assert forall|i: int| 0 <= i < front.len() implies (#[trigger] front[i]).start
            <= front[i].end by {
            assert(front[i] == regions[i]);
        }
        assert(partitions(front, cut));
        lemma_joined_text(text, front, cut);
        lemma_partition_spans(front, cut);
        assert(joined_text(text, regions) =~= text.subrange(span.start as int, span.end as int));
    }
}

/// Regions that cut a span into pieces make an ordered span.
proof fn lemma_partition_spans(regions: Seq<Region>, span: Span)
    requires
        partitions(regions, span),
    ensures
        span.start <= span.end,
    decreases regions.len(),
{
    if regions.len() > 1 {
        let front = regions.drop_last();
        let cut = Span { start: span.start, end: regions.last().start };
        assert(front.last() == regions[regions.len() - 2]);
        assert(front[0] == regions[0]);
        assert forall|i: int, j: int| 0 <= i && j == i + 1 && j < front.len() implies (
        #[trigger] front[i]).end == (#[trigger] front[j]).start by {
            assert(front[i] == regions[i]);
            assert(front[j] == regions[j]);
        }
        assert forall|i: int| 0 <= i < front.len() implies (#[trigger] front[i]).start
            <= front[i].end by {
            assert(front[i] == regions[i]);
        }
        lemma_partition_spans(front, cut);
    }
}

/// On a capture list whose spans nest, the regions of the match spell,
/// joined in order, exactly the text of the whole match.
pub proof fn lemma_match_text(text: Seq<u8>, groups: Seq<Option<Span>>)
    requires
        well_nested(groups),
        groups[0]->0.end <= text.len(),
    ensures
        joined_text(text, regions_of(groups)) == text.subrange(
            groups[0]->0.start as int,
            groups[0]->0.end as int,
        ),
{
    lemma_regions_partition(groups);
    lemma_joined_text(text, regions_of(groups), groups[0]->0);
}

proof fn lemma_visit_all_without(st: Scan, groups: Seq<Option<Span>>, index: int)
    requires
        0 <= index < groups.len(),
        groups[index] is None,
    ensures
        st.visit_all(groups.remove(index)) == st.visit_all(groups),
    decreases groups.len(),
{
    if index == groups.len() - 1 {
        assert(groups.remove(index) == groups.drop_last());
    } else {
        let shorter = groups.remove(index);
        assert(shorter.drop_last() == groups.drop_last().remove(index));
        assert(shorter.last() == groups.last());
        lemma_visit_all_without(st, groups.drop_last(), index);
    }
}

/// A group that took no part in the match leaves no trace: the regions stay
/// the same when its entry is taken out of the capture list.
pub proof fn lemma_absent_group_ignored(groups: Seq<Option<Span>>, index: int)
    requires
        valid_captures(groups),
        0 <= index < groups.len(),
        groups[index] is None,
    ensures
        valid_captures(groups.remove(index)),
        regions_of(groups.remove(index)) == regions_of(groups),
{
    let shorter = groups.remove(index);
    assert(shorter[0] == groups[0]);
    assert forall|i: int| 0 <= i < shorter.len() && shorter[i] is Some implies (
    #[trigger] shorter[i])->0.is_ordered() by {
        if i < index {
            assert(shorter[i] == groups[i]);
        } else {
            assert(shorter[i] == groups[i + 1]);
        }
    }
    lemma_visit_all_without(Scan::start_at(groups[0]->0.start), groups, index);
}

/// A match without capture groups is one region: the whole match, in the
/// first colour of the palette.
pub proof fn lemma_whole_match_alone(groups: Seq<Option<Span>>)
    requires
        valid_captures(groups),
        groups.len() == 1,
    ensures
        regions_of(groups) == seq![
            Region { start: groups[0]->0.start, end: groups[0]->0.end, color: Color::Blue },
        ],
{
    let whole = groups[0]->0;
    let start = Scan::start_at(whole.start);
    assert(groups.drop_last().len() == 0);
    assert(start.visit_all(groups.drop_last()) == start);
    assert(start.unwind(whole.end) == start);
    let opened = start.visit_all(groups);
    assert(opened == start.open(whole));
    assert(opened.stack.len() == 1);
    let closed = opened.close();
    assert(closed.stack.len() == 0);
    assert(closed.finish() == closed);
    assert(opened.finish() == closed);
    assert(regions_of(groups) =~= seq![
        Region { start: whole.start, end: whole.end, color: Color::Blue },
    ]);
}

} // verus!
