//! The colours of the regions: on a capture list whose spans nest, a region
//! that is not empty lies wholly inside or wholly outside every span, and has
//! the colour of the innermost span around it.

use vstd::prelude::*;
use crate::nesting::{in_order, well_nested};
use crate::palette::{palette_color, Color, PALETTE_SIZE};
use crate::region::{regions_of, Region, Scan, Scope};
use crate::span::Span;

verus! {

/// The number of groups below index `upto` that took part in the match.
pub open spec fn present_below(groups: Seq<Option<Span>>, upto: int) -> nat
    decreases upto,
{
    if upto <= 0 {
        0
    } else {
        present_below(groups, upto - 1) + if groups[upto - 1] is Some {
            1nat
        } else {
            0nat
        }
    }
}

/// The colour of the group at `index`: the groups that took part in the match
/// take the colours of the palette in index order.
pub open spec fn group_color(groups: Seq<Option<Span>>, index: int) -> Color {
    palette_color(present_below(groups, index))
}

/// The region lies inside the span.
pub open spec fn covers(span: Span, region: Region) -> bool {
    span.start <= region.start && region.end <= span.end
}

/// The region lies before or after the span.
pub open spec fn apart(span: Span, region: Region) -> bool {
    region.end <= span.start || span.end <= region.start
}

/// The group at `index` is the innermost around the region: its span covers
/// the region, and no span of a later group does.
pub open spec fn innermost_around(groups: Seq<Option<Span>>, region: Region, index: int) -> bool {
    &&& 0 <= index < groups.len()
    &&& groups[index] is Some
    &&& covers(groups[index]->0, region)
    &&& forall|i: int|
        index < i < groups.len() && groups[i] is Some ==> !covers(
            (#[trigger] groups[i])->0,
            region,
        )
}

/// The region crosses no boundary of a span, and has the colour of the
/// innermost group around it.
pub open spec fn rightly_colored(groups: Seq<Option<Span>>, region: Region) -> bool {
    &&& forall|i: int|
        0 <= i < groups.len() && groups[i] is Some ==> covers((#[trigger] groups[i])->0, region)
            || apart(groups[i]->0, region)
    &&& exists|index: int|
        #![trigger groups[index]]
        innermost_around(groups, region, index) && region.color == group_color(groups, index)
}

/// Every region that is not empty is rightly coloured.
spec fn all_rightly_colored(groups: Seq<Option<Span>>, regions: Seq<Region>) -> bool {
    forall|r: int|
        0 <= r < regions.len() && (#[trigger] regions[r]).start < regions[r].end
            ==> rightly_colored(groups, regions[r])
}

/// The group at `index` has the scope `scope`.
spec fn owns(groups: Seq<Option<Span>>, index: int, scope: Scope) -> bool {
    &&& groups[index] == Some(Span { start: scope.start, end: scope.end })
    &&& scope.color == group_color(groups, index)
}

/// What holds of a scan over nested captures while the groups below `k` are
/// visited. `owners` names, for each open scope, the group it was opened for.
spec fn painting(st: Scan, groups: Seq<Option<Span>>, k: int, owners: Seq<int>) -> bool {
    &&& owners.len() == st.stack.len()
    &&& forall|m: int|
        0 <= m < owners.len() ==> {
            &&& 0 <= (#[trigger] owners[m]) < k
            &&& owns(groups, owners[m], st.stack[m])
            &&& st.stack[m].start <= st.cursor
        }
    &&& forall|m: int, n: int|
        0 <= m < n < owners.len() ==> (#[trigger] owners[m]) < (#[trigger] owners[n])
    &&& forall|m: int, n: int|
        0 <= m < n < st.stack.len() ==> (#[trigger] st.stack[n]).end <= (#[trigger] st.stack[m]).end
    &&& st.stack.len() > 0 ==> st.cursor <= st.stack.last().end
    &&& forall|i: int|
        0 <= i < k && groups[i] is Some ==> (#[trigger] groups[i])->0.end <= st.cursor
            || owners.contains(i)
    &&& forall|j: int|
        k <= j < groups.len() && groups[j] is Some ==> st.cursor <= (#[trigger] groups[j])->0.start
    &&& st.next == present_below(groups, k) % PALETTE_SIZE as nat
    &&& all_rightly_colored(groups, st.emitted)
}

/// Between two groups the whole match is the outermost open scope.
spec fn rooted(owners: Seq<int>) -> bool {
    owners.len() > 0 && owners[0] == 0
}

proof fn lemma_paint_region(
    st: Scan,
    groups: Seq<Option<Span>>,
    k: int,
    owners: Seq<int>,
    end: usize,
)
    requires
        well_nested(groups),
        0 <= k <= groups.len(),
        painting(st, groups, k, owners),
        st.stack.len() > 0,
        st.cursor < end,
        end <= st.stack.last().end,
        forall|j: int|
            k <= j < groups.len() && groups[j] is Some ==> end <= (#[trigger] groups[j])->0.start,
    ensures
        rightly_colored(groups, Region { start: st.cursor, end, color: st.stack.last().color }),
{
    let region = Region { start: st.cursor, end, color: st.stack.last().color };
    let top = owners.len() - 1;
    let inner = owners[top];
    assert(owns(groups, inner, st.stack[top]));
    assert forall|i: int| 0 <= i < groups.len() && groups[i] is Some implies (covers(
        (#[trigger] groups[i])->0,
        region,
    ) || apart(groups[i]->0, region)) && (i > inner ==> !covers(groups[i]->0, region)) by {
        if i < k {
            if owners.contains(i) {
                let m = choose|m: int| 0 <= m < owners.len() && owners[m] == i;
                assert(owns(groups, owners[m], st.stack[m]));
                assert(st.stack[top].end <= st.stack[m].end);
                if m < top {
                    assert(owners[m] < owners[top]);
                }
            }
        }
    }
    assert(covers(groups[inner]->0, region));
    assert(innermost_around(groups, region, inner));
}

proof fn lemma_paint_close(st: Scan, groups: Seq<Option<Span>>, k: int, owners: Seq<int>)
    requires
        well_nested(groups),
        0 <= k <= groups.len(),
        painting(st, groups, k, owners),
        st.stack.len() > 0,
        forall|j: int|
            k <= j < groups.len() && groups[j] is Some ==> st.stack.last().end <= (
            #[trigger] groups[j])->0.start,
    ensures
        painting(st.close(), groups, k, owners.drop_last()),
{
    let closed = st.close();
    let fewer = owners.drop_last();
    let top = st.stack.last();
    let region = Region { start: st.cursor, end: top.end, color: top.color };
    if st.cursor < top.end {
        lemma_paint_region(st, groups, k, owners, top.end);
    }
    assert forall|r: int|
        0 <= r < closed.emitted.len() && (#[trigger] closed.emitted[r]).start
            < closed.emitted[r].end implies rightly_colored(groups, closed.emitted[r]) by {
        if r < st.emitted.len() {
            assert(closed.emitted[r] == st.emitted[r]);
        }
    }
    assert forall|m: int| 0 <= m < fewer.len() implies {
        &&& 0 <= (#[trigger] fewer[m]) < k
        &&& owns(groups, fewer[m], closed.stack[m])
        &&& closed.stack[m].start <= closed.cursor
    } by {
        assert(fewer[m] == owners[m]);
        assert(closed.stack[m] == st.stack[m]);
    }
    assert forall|m: int, n: int| 0 <= m < n < fewer.len() implies (#[trigger] fewer[m]) < (
    #[trigger] fewer[n]) by {
        assert(fewer[m] == owners[m]);
        assert(fewer[n] == owners[n]);
    }
    assert forall|m: int, n: int| 0 <= m < n < closed.stack.len() implies (
    #[trigger] closed.stack[n]).end <= (#[trigger] closed.stack[m]).end by {
        assert(closed.stack[n] == st.stack[n]);
        assert(closed.stack[m] == st.stack[m]);
    }
    if closed.stack.len() > 0 {
        assert(closed.stack.last() == st.stack[st.stack.len() - 2]);
        assert(st.stack[st.stack.len() - 1].end <= st.stack[st.stack.len() - 2].end);
    }
    assert forall|i: int| 0 <= i < k && groups[i] is Some implies (#[trigger] groups[i])->0.end
        <= closed.cursor || fewer.contains(i) by {
        if groups[i]->0.end > closed.cursor {
            assert(owners.contains(i));
            let m = choose|m: int| 0 <= m < owners.len() && owners[m] == i;
            assert(owns(groups, owners[m], st.stack[m]));
            assert(m < owners.len() - 1);
            assert(fewer[m] == i);
        }
    }
}

proof fn lemma_paint_unwind(st: Scan, groups: Seq<Option<Span>>, k: int, owners: Seq<int>) -> (kept: Seq<int>)
    requires
        well_nested(groups),
        1 <= k < groups.len(),
        groups[k] is Some,
        painting(st, groups, k, owners),
        rooted(owners),
    ensures
        painting(st.unwind(groups[k]->0.end), groups, k, kept),
        rooted(kept),
        groups[k]->0.end <= st.unwind(groups[k]->0.end).stack.last().end,
    decreases st.stack.len(),
{
    let span = groups[k]->0;
    let top = st.stack.last();
    assert(owns(groups, owners[0], st.stack[0]));
    assert(span.is_within(groups[0]->0));
    if span.end > top.end {
        let last = owners.len() - 1;
        let inner = owners[last];
        assert(owns(groups, inner, st.stack[last]));
        assert(last > 0);
        assert(owners[0] < owners[last]);
        assert(in_order(groups[inner]->0, span));
        assert forall|j: int| k <= j < groups.len() && groups[j] is Some implies top.end <= (
        #[trigger] groups[j])->0.start by {
            assert(in_order(groups[inner]->0, groups[j]->0));
            if j > k {
                assert(in_order(groups[k]->0, groups[j]->0));
            }
        }
        lemma_paint_close(st, groups, k, owners);
        let fewer = owners.drop_last();
        assert(fewer[0] == owners[0]);
        lemma_paint_unwind(st.close(), groups, k, fewer)
    } else {
        owners
    }
}

proof fn lemma_paint_open(st: Scan, groups: Seq<Option<Span>>, k: int, owners: Seq<int>)
    requires
        well_nested(groups),
        1 <= k < groups.len(),
        groups[k] is Some,
        painting(st, groups, k, owners),
        rooted(owners),
        groups[k]->0.end <= st.stack.last().end,
    ensures
        painting(st.open(groups[k]->0), groups, k + 1, owners.push(k)),
        rooted(owners.push(k)),
{
    let span = groups[k]->0;
    let opened = st.open(span);
    let more = owners.push(k);
    let around = st.stack.last();
    assert(st.cursor <= span.start);
    assert forall|j: int| k <= j < groups.len() && groups[j] is Some implies span.start <= (
    #[trigger] groups[j])->0.start by {
        if j > k {
            assert(in_order(groups[k]->0, groups[j]->0));
        }
    }
    if st.cursor < span.start {
        lemma_paint_region(st, groups, k, owners, span.start);
    }
    assert forall|r: int|
        0 <= r < opened.emitted.len() && (#[trigger] opened.emitted[r]).start
            < opened.emitted[r].end implies rightly_colored(groups, opened.emitted[r]) by {
        if r < st.emitted.len() {
            assert(opened.emitted[r] == st.emitted[r]);
        }
    }
    assert(present_below(groups, k + 1) == present_below(groups, k) + 1);
    assert(palette_color(st.next) == palette_color(present_below(groups, k)));
    assert forall|m: int| 0 <= m < more.len() implies {
        &&& 0 <= (#[trigger] more[m]) < k + 1
        &&& owns(groups, more[m], opened.stack[m])
        &&& opened.stack[m].start <= opened.cursor
    } by {
        if m < owners.len() {
            assert(more[m] == owners[m]);
            assert(opened.stack[m] == st.stack[m]);
        }
    }
    assert forall|m: int, n: int| 0 <= m < n < more.len() implies (#[trigger] more[m]) < (
    #[trigger] more[n]) by {
        assert(more[m] == owners[m]);
        if n < owners.len() {
            assert(more[n] == owners[n]);
        }
    }
    assert forall|m: int, n: int| 0 <= m < n < opened.stack.len() implies (
    #[trigger] opened.stack[n]).end <= (#[trigger] opened.stack[m]).end by {
        assert(opened.stack[m] == st.stack[m]);
        if n < st.stack.len() {
            assert(opened.stack[n] == st.stack[n]);
        } else {
            assert(st.stack[m].end >= st.stack.last().end);
        }
    }
    assert forall|i: int| 0 <= i < k + 1 && groups[i] is Some implies (
    #[trigger] groups[i])->0.end <= opened.cursor || more.contains(i) by {
        if i == k {
            assert(more[more.len() - 1] == k);
        } else if groups[i]->0.end > opened.cursor {
            assert(owners.contains(i));
            let m = choose|m: int| 0 <= m < owners.len() && owners[m] == i;
            assert(more[m] == i);
        }
    }
    assert(more[0] == owners[0]);
}

proof fn lemma_paint_scan(groups: Seq<Option<Span>>, k: int) -> (owners: Seq<int>)
    requires
        well_nested(groups),
        1 <= k <= groups.len(),
    ensures
        painting(Scan::start_at(groups[0]->0.start).visit_all(groups.take(k)), groups, k, owners),
        rooted(owners),
    decreases k,
{
    let start = Scan::start_at(groups[0]->0.start);
    let upto = groups.take(k);
    assert(upto.drop_last() == groups.take(k - 1));
    assert(upto.last() == groups[k - 1]);
    if k == 1 {
        assert(start.visit_all(upto.drop_last()) == start);
        assert(start.unwind(groups[0]->0.end) == start);
        let first = start.visit(groups[0]);
        let owners = seq![0int];
        assert(first.stack.len() == 1);
        assert(first.emitted.len() == 0);
        assert(present_below(groups, 0) == 0);
        assert(present_below(groups, 1) == 1);
        assert(owners[0] == 0);
        assert(owns(groups, 0, first.stack[0]));
        assert forall|i: int| 0 <= i < 1 && groups[i] is Some implies (
        #[trigger] groups[i])->0.end <= first.cursor || owners.contains(i) by {
            assert(owners[0] == i);
        }
        assert forall|j: int| 1 <= j < groups.len() && groups[j] is Some implies first.cursor <= (
        #[trigger] groups[j])->0.start by {
            assert(groups[j]->0.is_within(groups[0]->0));
        }
        owners
    } else {
        let before = start.visit_all(groups.take(k - 1));
        let owners = lemma_paint_scan(groups, k - 1);
        match groups[k - 1] {
            Some(span) => {
                let kept = lemma_paint_unwind(before, groups, k - 1, owners);
                lemma_paint_open(before.unwind(span.end), groups, k - 1, kept);
                kept.push(k - 1)
            },
            None => {
                assert(present_below(groups, k) == present_below(groups, k - 1));
                owners
            },
        }
    }
}

proof fn lemma_paint_finish(st: Scan, groups: Seq<Option<Span>>, owners: Seq<int>)
    requires
        well_nested(groups),
        painting(st, groups, groups.len() as int, owners),
    ensures
        all_rightly_colored(groups, st.finish().emitted),
    decreases st.stack.len(),
{
    if st.stack.len() > 0 {
        lemma_paint_close(st, groups, groups.len() as int, owners);
        lemma_paint_finish(st.close(), groups, owners.drop_last());
    }
}

/// On a capture list whose spans nest, every region that is not empty lies
/// wholly inside or wholly outside each span, and has the colour of the
/// innermost group around it: of the last group, in index order, whose span
/// covers it.
pub proof fn lemma_regions_colored(groups: Seq<Option<Span>>, r: int)
    requires
        well_nested(groups),
        0 <= r < regions_of(groups).len(),
        regions_of(groups)[r].start < regions_of(groups)[r].end,
    ensures
        rightly_colored(groups, regions_of(groups)[r]),
{
    let owners = lemma_paint_scan(groups, groups.len() as int);
    assert(groups.take(groups.len() as int) == groups);
    lemma_paint_finish(Scan::start_at(groups[0]->0.start).visit_all(groups), groups, owners);
}

} // verus!
