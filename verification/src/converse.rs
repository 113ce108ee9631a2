//! Nesting is needed: where the regions of a match cut the whole match into
//! pieces, the spans of its capture list nest.

use vstd::prelude::*;
use crate::nesting::{in_order, nested_below, well_nested};
use crate::partition::{forward, lemma_regions_partition, partitions};
use crate::region::{regions_of, Region, Scan};
use crate::span::{valid_captures, Span};

verus! {

/// `longer` starts with the regions of `shorter`.
spec fn extends(longer: Seq<Region>, shorter: Seq<Region>) -> bool {
    &&& shorter.len() <= longer.len()
    &&& forall|i: int| 0 <= i < shorter.len() ==> longer[i] == #[trigger] shorter[i]
}

/// The open scopes end no later the deeper they lie.
spec fn sorted_stack(st: Scan) -> bool {
    forall|m: int, n: int|
        0 <= m < n < st.stack.len() ==> (#[trigger] st.stack[n]).end <= (#[trigger] st.stack[m]).end
}

/// A scope that ends at `end` is open.
spec fn open_end(st: Scan, end: usize) -> bool {
    exists|m: int| 0 <= m < st.stack.len() && (#[trigger] st.stack[m]).end == end
}

/// Every group below `k` started no later than the cursor, and either ended
/// no later than the cursor or still has its scope open.
spec fn accounted(st: Scan, groups: Seq<Option<Span>>, k: int) -> bool {
    forall|i: int|
        0 <= i < k && groups[i] is Some ==> {
            &&& (#[trigger] groups[i])->0.start <= st.cursor
            &&& (groups[i]->0.end <= st.cursor || open_end(st, groups[i]->0.end))
        }
}

/// The whole match is still the outermost open scope, and the groups below
/// `k` nest.
spec fn on_course(st: Scan, groups: Seq<Option<Span>>, k: int) -> bool {
    &&& st.stack[0].end == groups[0]->0.end
    &&& accounted(st, groups, k)
    &&& nested_below(groups, k)
}

/// The scope of the whole match was closed before the scan's end: the
/// outermost open scope ends after the whole match.
spec fn off_course(st: Scan, groups: Seq<Option<Span>>) -> bool {
    st.stack[0].end > groups[0]->0.end
}

/// What holds of a scan whose regions so far all run forward, once the
/// groups below `k` are visited.
spec fn followed(st: Scan, groups: Seq<Option<Span>>, k: int) -> bool {
    &&& st.stack.len() > 0
    &&& sorted_stack(st)
    &&& (off_course(st, groups) || on_course(st, groups, k))
}

proof fn lemma_unwind_extends(st: Scan, end: usize)
    ensures
        extends(st.unwind(end).emitted, st.emitted),
    decreases st.stack.len(),
{
    if st.stack.len() > 0 && end > st.stack.last().end {
        let closed = st.close();
        lemma_unwind_extends(closed, end);
        assert forall|i: int| 0 <= i < st.emitted.len() implies st.unwind(end).emitted[i]
            == #[trigger] st.emitted[i] by {
            assert(closed.emitted[i] == st.emitted[i]);
        }
    }
}

proof fn lemma_finish_extends(st: Scan)
    ensures
        extends(st.finish().emitted, st.emitted),
    decreases st.stack.len(),
{
    if st.stack.len() > 0 {
        let closed = st.close();
        lemma_finish_extends(closed);
        assert forall|i: int| 0 <= i < st.emitted.len() implies st.finish().emitted[i]
            == #[trigger] st.emitted[i] by {
            assert(closed.emitted[i] == st.emitted[i]);
        }
    }
}

proof fn lemma_visit_extends(st: Scan, group: Option<Span>)
    ensures
        extends(st.visit(group).emitted, st.emitted),
{
    match group {
        Some(span) => {
            lemma_unwind_extends(st, span.end);
        },
        None => {},
    }
}

proof fn lemma_finish_last(st: Scan)
    requires
        st.stack.len() > 0,
    ensures
        st.finish().emitted.len() > 0,
        st.finish().emitted.last().end == st.stack[0].end,
    decreases st.stack.len(),
{
    let closed = st.close();
    if closed.stack.len() > 0 {
        assert(closed.stack[0] == st.stack[0]);
        lemma_finish_last(closed);
    } else {
        assert(closed.finish() == closed);
    }
}

proof fn lemma_unwind_stack(st: Scan, end: usize)
    requires
        sorted_stack(st),
    ensures
        sorted_stack(st.unwind(end)),
        st.unwind(end).stack.len() <= st.stack.len(),
        st.unwind(end).stack == st.stack.take(st.unwind(end).stack.len() as int),
        st.unwind(end).stack.len() > 0 ==> end <= st.unwind(end).stack.last().end,
        st.unwind(end).stack.len() < st.stack.len() ==> st.stack[st.unwind(
            end,
        ).stack.len() as int].end < end,
        st.unwind(end).stack.len() == st.stack.len() ==> st.unwind(end) == st,
    decreases st.stack.len(),
{
    if st.stack.len() > 0 && end > st.stack.last().end {
        let closed = st.close();
        assert forall|m: int, n: int| 0 <= m < n < closed.stack.len() implies (
        #[trigger] closed.stack[n]).end <= (#[trigger] closed.stack[m]).end by {
            assert(closed.stack[n] == st.stack[n]);
            assert(closed.stack[m] == st.stack[m]);
        }
        lemma_unwind_stack(closed, end);
        let kept = closed.unwind(end).stack.len() as int;
        assert(closed.stack.take(kept) == st.stack.take(kept));
        if kept < closed.stack.len() {
            assert(closed.stack[kept] == st.stack[kept]);
        }
    } else {
        assert(st.stack.take(st.stack.len() as int) == st.stack);
    }
}

proof fn lemma_unwind_accounted(st: Scan, end: usize, groups: Seq<Option<Span>>, k: int)
    requires
        accounted(st, groups, k),
        forward(st.unwind(end).emitted),
    ensures
        accounted(st.unwind(end), groups, k),
        st.cursor <= st.unwind(end).cursor,
    decreases st.stack.len(),
{
    if st.stack.len() > 0 && end > st.stack.last().end {
        let closed = st.close();
        let top = st.stack.last();
        lemma_unwind_extends(closed, end);
        let at = st.emitted.len() as int;
        assert(closed.emitted[at] == Region { start: st.cursor, end: top.end, color: top.color });
        assert(st.unwind(end).emitted[at] == closed.emitted[at]);
        assert(st.cursor <= top.end);
        assert forall|i: int| 0 <= i < k && groups[i] is Some implies {
            &&& (#[trigger] groups[i])->0.start <= closed.cursor
            &&& (groups[i]->0.end <= closed.cursor || open_end(closed, groups[i]->0.end))
        } by {
            let span = groups[i]->0;
            if span.end > closed.cursor {
                assert(open_end(st, span.end));
                let m = choose|m: int| 0 <= m < st.stack.len() && (#[trigger] st.stack[m]).end
                    == span.end;
                assert(m < st.stack.len() - 1);
                assert(closed.stack[m] == st.stack[m]);
            }
        }
        lemma_unwind_accounted(closed, end, groups, k);
    }
}

proof fn lemma_visit_followed(st: Scan, groups: Seq<Option<Span>>, k: int)
    requires
        valid_captures(groups),
        1 <= k < groups.len(),
        followed(st, groups, k),
        forward(st.visit(groups[k]).emitted),
    ensures
        followed(st.visit(groups[k]), groups, k + 1),
{
    match groups[k] {
        Some(span) => {
            let kept = st.unwind(span.end);
            let opened = kept.open(span);
            lemma_unwind_stack(st, span.end);
            assert(extends(opened.emitted, kept.emitted));
            assert(forward(kept.emitted));
            assert forall|m: int, n: int| 0 <= m < n < opened.stack.len() implies (
            #[trigger] opened.stack[n]).end <= (#[trigger] opened.stack[m]).end by {
                assert(opened.stack[m] == kept.stack[m]);
                if n < kept.stack.len() {
                    assert(opened.stack[n] == kept.stack[n]);
                } else {
                    assert(kept.stack[m].end >= kept.stack.last().end);
                }
            }
            if kept.stack.len() == 0 {
                assert(opened.stack[0].end == span.end);
                assert(st.stack[0].end < span.end);
            } else {
                assert(opened.stack[0] == kept.stack[0]);
                assert(kept.stack[0] == st.stack[0]);
                if on_course(st, groups, k) {
                    lemma_unwind_accounted(st, span.end, groups, k);
                    assert(opened.emitted.last() == Region {
                        start: kept.cursor,
                        end: span.start,
                        color: kept.stack.last().color,
                    });
                    assert(kept.cursor <= span.start);
                    assert(kept.stack[0].end >= kept.stack.last().end);
                    assert forall|i: int| 0 <= i < k && groups[i] is Some implies in_order(
                        (#[trigger] groups[i])->0,
                        span,
                    ) by {
                        let earlier = groups[i]->0;
                        if earlier.end > kept.cursor {
                            assert(open_end(kept, earlier.end));
                            let m = choose|m: int|
                                0 <= m < kept.stack.len() && (#[trigger] kept.stack[m]).end
                                    == earlier.end;
                            assert(kept.stack[m].end >= kept.stack.last().end);
                        }
                    }
                    assert(span.is_within(groups[0]->0)) by {
                        assert(groups[0]->0.start <= kept.cursor);
                    }
                    assert forall|i: int| 0 <= i < k + 1 && groups[i] is Some implies {
                        &&& (#[trigger] groups[i])->0.start <= opened.cursor
                        &&& (groups[i]->0.end <= opened.cursor || open_end(
                            opened,
                            groups[i]->0.end,
                        ))
                    } by {
                        let earlier = groups[i]->0;
                        if i == k {
                            assert(opened.stack[opened.stack.len() - 1].end == span.end);
                        } else if earlier.end > kept.cursor {
                            assert(open_end(kept, earlier.end));
                            let m = choose|m: int|
                                0 <= m < kept.stack.len() && (#[trigger] kept.stack[m]).end
                                    == earlier.end;
                            assert(opened.stack[m] == kept.stack[m]);
                        }
                    }
                    assert(nested_below(groups, k + 1));
                }
            }
        },
        None => {},
    }
}

proof fn lemma_scan_followed(groups: Seq<Option<Span>>, k: int)
    requires
        valid_captures(groups),
        1 <= k <= groups.len(),
        forward(Scan::start_at(groups[0]->0.start).visit_all(groups.take(k)).emitted),
    ensures
        followed(Scan::start_at(groups[0]->0.start).visit_all(groups.take(k)), groups, k),
    decreases k,
{
    let start = Scan::start_at(groups[0]->0.start);
    let upto = groups.take(k);
    assert(upto.drop_last() == groups.take(k - 1));
    assert(upto.last() == groups[k - 1]);
    if k == 1 {
        assert(start.visit_all(upto.drop_last()) == start);
        assert(start.unwind(groups[0]->0.end) == start);
        let first = start.visit(groups[0]);
        assert(first.stack.len() == 1);
        assert(first.stack[0].end == groups[0]->0.end);
        assert(open_end(first, groups[0]->0.end));
    } else {
        let before = start.visit_all(groups.take(k - 1));
        lemma_visit_extends(before, groups[k - 1]);
        lemma_scan_followed(groups, k - 1);
        lemma_visit_followed(before, groups, k - 1);
    }
}

/// Where the regions of a match cut the whole match into pieces, the spans
/// of its capture list nest.
pub proof fn lemma_partition_needs_nesting(groups: Seq<Option<Span>>)
    requires
        valid_captures(groups),
        partitions(regions_of(groups), groups[0]->0),
    ensures
        well_nested(groups),
{
    let scanned = Scan::start_at(groups[0]->0.start).visit_all(groups);
    assert(groups.take(groups.len() as int) == groups);
    lemma_finish_extends(scanned);
    lemma_scan_followed(groups, groups.len() as int);
    lemma_finish_last(scanned);
}

/// The regions of a match cut the whole match into pieces exactly where the
/// spans of its capture list nest.
pub proof fn lemma_partition_iff_nested(groups: Seq<Option<Span>>)
    requires
        valid_captures(groups),
    ensures
        partitions(regions_of(groups), groups[0]->0) <==> well_nested(groups),
{
    if well_nested(groups) {
        lemma_regions_partition(groups);
    }
    if partitions(regions_of(groups), groups[0]->0) {
        lemma_partition_needs_nesting(groups);
    }
}

} // verus!
