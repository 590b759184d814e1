//! Laws on how the inline calls of a function nest.
use vstd::prelude::*;

use crate::convert::diagnostic::WarningView;
use crate::convert::dwarf::details;
use crate::convert::dwarf::details::{Details, Search};
use crate::convert::dwarf::dies;
use crate::convert::dwarf::dies::InlineWork;
use crate::convert::dwarf::model::{Entry, DW_TAG_INLINED_SUBROUTINE};
use crate::error::ErrorView;
use crate::model::{AddressRange, InlineView};

verus! {

/// An inline call without the calls in it.
pub open spec fn bare(node: InlineView) -> InlineView {
    InlineView { children: Seq::empty(), ..node }
}

/// The calls of an inline tree, each before those in it, with their levels.
pub open spec fn node_outline(node: InlineView, level: nat) -> Seq<(nat, InlineView)>
    decreases node, 0int,
{
    seq![(level, bare(node))] + outline(node.children, node.children.len(), level + 1)
}

/// The calls of the first `count` of some inline trees, each before those in it,
/// with their levels.
pub open spec fn outline(nodes: Seq<InlineView>, count: nat, level: nat) -> Seq<(nat, InlineView)>
    decreases nodes, count,
{
    if count == 0 || count > nodes.len() {
        Seq::empty()
    } else {
        outline(nodes, (count - 1) as nat, level) + node_outline(nodes[count - 1], level)
    }
}

/// Whether the call at `j` of an outline is a child of the one at `p`: it is one
/// level below, and so is or deeper what stands between.
pub open spec fn is_child(outlined: Seq<(nat, InlineView)>, p: int, j: int) -> bool {
    &&& 0 <= p < j < outlined.len()
    &&& outlined[j].0 == outlined[p].0 + 1
    &&& forall|i: int| p < i < j ==> (#[trigger] outlined[i]).0 > outlined[p].0
}

/// Whether the entry at `b` lies below the one at `a`: it comes behind it, and
/// everything from there on up to it lies deeper.
pub open spec fn encloses(entries: Seq<Entry>, a: int, b: int) -> bool {
    &&& a < b
    &&& forall|e: int| a < e <= b ==> (#[trigger] entries[e]).depth > entries[a].depth
}

/// Whether the last of the entries at `places` that the entry at `e` lies below
/// is the one at index `p`.
pub open spec fn is_nearest(entries: Seq<Entry>, places: Seq<int>, e: int, p: int) -> bool {
    &&& 0 <= p < places.len()
    &&& encloses(entries, places[p], e)
    &&& forall|i: int| p < i < places.len() ==> !encloses(entries, #[trigger] places[i], e)
}

/// Whether the entry at `e` lies below none of the entries at `places`.
pub open spec fn is_outermost(entries: Seq<Entry>, places: Seq<int>, e: int) -> bool {
    forall|i: int| 0 <= i < places.len() ==> !encloses(entries, #[trigger] places[i], e)
}

/// Whether the entry at `e` is read as `node` says where it lies in the given
/// ranges.
pub open spec fn reads_as(
    search: Search,
    e: int,
    ranges: Seq<AddressRange>,
    node: Option<InlineView>,
) -> bool {
    exists|warnings: Seq<WarningView>|
        (#[trigger] dies::inline_node_of(
            search.units,
            search.supplementary,
            search.unit,
            search.unit.entries@[e],
            ranges,
            search.files,
            warnings,
        )).result == Ok::<Option<InlineView>, ErrorView>(node)
}

/// Whether the call at `j` of an outline is that of the entry at its place, and
/// stands below the call of the nearest entry around it, or outermost where there
/// is none.
pub open spec fn is_nested(
    search: Search,
    places: Seq<int>,
    outlined: Seq<(nat, InlineView)>,
    j: int,
) -> bool {
    let entries = search.unit.entries@;
    ||| is_outermost(entries, places, places[j]) && outlined[j].0 == 0 && reads_as(
        search,
        places[j],
        seq![search.range],
        Some(outlined[j].1),
    )
    ||| exists|p: int| #[trigger]
        is_nearest(entries, places, places[j], p) && is_child(outlined, p, j) && reads_as(
            search,
            places[j],
            outlined[p].1.ranges,
            Some(outlined[j].1),
        )
}

/// Whether the entry at `e` is no call, by its name and by the ranges around it.
pub open spec fn is_left_out(
    search: Search,
    places: Seq<int>,
    outlined: Seq<(nat, InlineView)>,
    e: int,
) -> bool {
    let entries = search.unit.entries@;
    ||| is_outermost(entries, places, e) && reads_as(search, e, seq![search.range], None)
    ||| exists|p: int| #[trigger]
        is_nearest(entries, places, e, p) && reads_as(search, e, outlined[p].1.ranges, None)
}

spec fn path_outline(stack: Seq<(isize, InlineView)>, count: nat) -> Seq<(nat, InlineView)>
    decreases count,
{
    if count == 0 || count > stack.len() {
        Seq::empty()
    } else {
        path_outline(stack, (count - 1) as nat) + node_outline(
            stack[count - 1].1,
            (count - 1) as nat,
        )
    }
}

/// The calls that were found by some entry, open or done.
spec fn work_outline(work: InlineWork) -> Seq<(nat, InlineView)> {
    outline(work.roots, work.roots.len(), 0) + path_outline(work.stack, work.stack.len())
}

proof fn lemma_outline_push(nodes: Seq<InlineView>, node: InlineView, count: nat, level: nat)
    requires
        count <= nodes.len(),
    ensures
        outline(nodes.push(node), count, level) == outline(nodes, count, level),
        outline(nodes.push(node), nodes.len() + 1, level) == outline(nodes, nodes.len(), level)
            + node_outline(node, level) || count < nodes.len(),
    decreases count,
{
    if count > 0 {
        lemma_outline_push(nodes, node, (count - 1) as nat, level);
        assert(nodes.push(node)[count - 1] == nodes[count - 1]);
    }
    assert(nodes.push(node)[nodes.len() as int] == node);
}

proof fn lemma_path_agrees(
    a: Seq<(isize, InlineView)>,
    b: Seq<(isize, InlineView)>,
    count: nat,
)
    requires
        count <= a.len(),
        count <= b.len(),
        forall|i: int| 0 <= i < count ==> a[i] == b[i],
    ensures
        path_outline(a, count) == path_outline(b, count),
    decreases count,
{
    if count > 0 {
        lemma_path_agrees(a, b, (count - 1) as nat);
    }
}

/// Finishing a call moves it, and keeps the outline.
proof fn lemma_finished_outline(work: InlineWork)
    ensures
        work_outline(dies::inline_finished(work)) == work_outline(work),
{
    let n = work.stack.len();
    if n > 0 {
        let done = dies::inline_finished(work);
        let node = work.stack.last().1;
        let rest = work.stack.drop_last();
        if n == 1 {
            lemma_outline_push(work.roots, node, work.roots.len(), 0);
            assert(path_outline(work.stack, 0) =~= Seq::empty());
            assert(path_outline(work.stack, 1) =~= node_outline(node, 0));
            assert(path_outline(done.stack, 0) =~= Seq::empty());
            assert(work_outline(done) =~= work_outline(work));
        } else {
            let (depth, parent) = rest.last();
            let grown = InlineView { children: parent.children.push(node), ..parent };
            let m = (n - 2) as nat;
            let level = (n - 1) as nat;
            lemma_outline_push(parent.children, node, parent.children.len(), level);
            lemma_path_agrees(done.stack, work.stack, m);
            assert(done.stack[m as int] == (depth, grown));
            assert(work.stack[m as int] == (depth, parent));
            assert(bare(grown) == bare(parent));
            let inner = outline(parent.children, parent.children.len(), level);
            assert(node_outline(grown, m) =~= seq![(m, bare(parent))] + (inner + node_outline(
                node,
                level,
            )));
            let before = path_outline(work.stack, m);
            assert(path_outline(work.stack, level) == before + node_outline(parent, m));
            assert(path_outline(work.stack, n) == path_outline(work.stack, level) + node_outline(
                node,
                level,
            ));
            assert(path_outline(done.stack, level) == before + node_outline(grown, m));
            assert(path_outline(work.stack, n) =~= path_outline(done.stack, level));
        }
    }
}

proof fn lemma_pushed_outline(work: InlineWork, depth: isize, node: InlineView)
    requires
        node.children.len() == 0,
    ensures
        work_outline(InlineWork { stack: work.stack.push((depth, node)), ..work })
            == work_outline(work).push((work.stack.len(), node)),
{
    let grown = work.stack.push((depth, node));
    let n = work.stack.len();
    lemma_path_agrees(grown, work.stack, n);
    assert(node.children =~= Seq::empty());
    assert(outline(node.children, 0, n + 1) =~= Seq::empty());
    assert(node_outline(node, n) =~= seq![(n, node)]);
    assert(path_outline(grown, n + 1) == path_outline(grown, n) + node_outline(grown[n as int].1, n));
    assert(work_outline(InlineWork { stack: grown, ..work }) =~= work_outline(work).push((n, node)));
}

proof fn lemma_all_finished_outline(work: InlineWork)
    ensures
        ({
            let trees = dies::all_inlines_finished(work);
            outline(trees, trees.len(), 0) == work_outline(work)
        }),
    decreases work.stack.len(),
{
    if work.stack.len() == 0 {
        assert(path_outline(work.stack, 0) =~= Seq::empty());
        assert(work_outline(work) =~= outline(work.roots, work.roots.len(), 0));
    } else {
        lemma_finished_outline(work);
        lemma_all_finished_outline(dies::inline_finished(work));
    }
}

/// Whether an entry between two places ends what lies below the first.
spec fn is_closed(entries: Seq<Entry>, place: int, end: int) -> bool {
    exists|e: int| place < e < end && (#[trigger] entries[e]).depth <= entries[place].depth
}

/// Whether the entries from `index` up to `from` were followed: the calls found
/// are those of the entries at `places`, of which those at the indices `open` are
/// open.
spec fn followed(
    search: Search,
    index: int,
    from: int,
    work: InlineWork,
    places: Seq<int>,
    open: Seq<int>,
) -> bool {
    let entries = search.unit.entries@;
    let outlined = work_outline(work);
    &&& 0 <= index < from <= entries.len()
    &&& outlined.len() == places.len()
    &&& open.len() == work.stack.len()
    &&& forall|j: int|
        0 <= j < places.len() ==> index < (#[trigger] places[j]) < from && entries[places[j]].tag
            == DW_TAG_INLINED_SUBROUTINE
    &&& forall|i: int, j: int|
        0 <= i < j < places.len() ==> (#[trigger] places[i]) < (#[trigger] places[j])
    &&& forall|t: int|
        0 <= t < open.len() ==> {
            &&& 0 <= (#[trigger] open[t]) < places.len()
            &&& outlined[open[t]].0 == t
            &&& work.stack[t].0 == entries[places[open[t]]].depth
            &&& work.stack[t].1.ranges == outlined[open[t]].1.ranges
        }
    &&& forall|s: int, t: int|
        0 <= s < t < open.len() ==> (#[trigger] open[s]) < (#[trigger] open[t])
            && work.stack[s].0 < work.stack[t].0
    &&& forall|t: int, e: int|
        #![trigger open[t], entries[e]]
        0 <= t < open.len() && places[open[t]] < e < from ==> entries[e].depth > work.stack[t].0
    &&& forall|j: int|
        0 <= j < places.len() && !open.contains(j) ==> is_closed(
            entries,
            #[trigger] places[j],
            from,
        )
    &&& forall|t: int, i: int|
        #![trigger open[t], outlined[i]]
        0 <= t < open.len() && open[t] < i < places.len() ==> outlined[i].0 > t
    &&& forall|j: int|
        0 <= j < places.len() ==> #[trigger] is_nested(search, places, outlined, j)
    &&& forall|e: int|
        index < e < from && (#[trigger] entries[e]).tag == DW_TAG_INLINED_SUBROUTINE
            && !places.contains(e) ==> is_left_out(search, places, outlined, e)
}

/// Ending the calls that an entry at `depth` does not lie below.
proof fn lemma_stack_shrinks(work: InlineWork, open: Seq<int>, depth: isize) -> (kept: Seq<int>)
    requires
        open.len() == work.stack.len(),
        forall|s: int, t: int|
            0 <= s < t < open.len() ==> (#[trigger] work.stack[s]).0 < (#[trigger] work.stack[t]).0,
    ensures
        ({
            let after = dies::inlines_finished(work, depth);
            &&& work_outline(after) == work_outline(work)
            &&& kept.len() == after.stack.len()
            &&& kept.len() <= open.len()
            &&& kept == open.take(kept.len() as int)
            &&& forall|t: int|
                0 <= t < kept.len() ==> {
                    &&& (#[trigger] after.stack[t]).0 == work.stack[t].0
                    &&& after.stack[t].1.ranges == work.stack[t].1.ranges
                    &&& after.stack[t].0 < depth
                }
            &&& forall|t: int|
                kept.len() <= t < open.len() ==> depth <= (#[trigger] work.stack[t]).0
        }),
    decreases work.stack.len(),
{
    let n = work.stack.len() as int;
    if n == 0 || depth > work.stack.last().0 {
        assert(open.take(n) =~= open);
        assert forall|t: int| 0 <= t < n implies (#[trigger] work.stack[t]).0 < depth by {
            if t < n - 1 {
                assert(work.stack[t].0 < work.stack[n - 1].0);
            }
        }
        open
    } else {
        let next = dies::inline_finished(work);
        lemma_finished_outline(work);
        let fewer = open.drop_last();
        assert(next.stack.len() == n - 1);
        assert forall|t: int| 0 <= t < n - 1 implies (#[trigger] next.stack[t]).0
            == work.stack[t].0 && next.stack[t].1.ranges == work.stack[t].1.ranges by {}
        let kept = lemma_stack_shrinks(next, fewer, depth);
        let after = dies::inlines_finished(work, depth);
        assert(after == dies::inlines_finished(next, depth));
        assert(kept =~= open.take(kept.len() as int));
        assert forall|t: int| kept.len() <= t < open.len() implies depth <= (
        #[trigger] work.stack[t]).0 by {
            if t < n - 1 {
                assert(depth <= next.stack[t].0);
            }
        }
        assert forall|t: int| 0 <= t < kept.len() implies {
            &&& (#[trigger] after.stack[t]).0 == work.stack[t].0
            &&& after.stack[t].1.ranges == work.stack[t].1.ranges
            &&& after.stack[t].0 < depth
        } by {
            assert(after.stack[t].0 == next.stack[t].0);
        }
        kept
    }
}

/// What lies around the entry at `from` once the calls that it does not lie below
/// are ended.
proof fn lemma_around(
    search: Search,
    index: int,
    from: int,
    work: InlineWork,
    after: InlineWork,
    places: Seq<int>,
    open: Seq<int>,
    kept: Seq<int>,
)
    requires
        followed(search, index, from, work, places, open),
        from < search.unit.entries@.len(),
        kept.len() == after.stack.len(),
        kept.len() <= open.len(),
        kept == open.take(kept.len() as int),
        forall|t: int|
            0 <= t < kept.len() ==> {
                &&& (#[trigger] after.stack[t]).0 == work.stack[t].0
                &&& after.stack[t].1.ranges == work.stack[t].1.ranges
                &&& after.stack[t].0 < search.unit.entries@[from].depth
            },
        forall|t: int|
            kept.len() <= t < open.len() ==> search.unit.entries@[from].depth <= (
            #[trigger] work.stack[t]).0,
    ensures
        forall|t: int|
            0 <= t < kept.len() ==> encloses(
                search.unit.entries@,
                places[#[trigger] kept[t]],
                from,
            ),
        forall|j: int|
            0 <= j < places.len() && !kept.contains(j) ==> !encloses(
                search.unit.entries@,
                #[trigger] places[j],
                from,
            ) && is_closed(search.unit.entries@, places[j], from + 1),
        kept.len() == 0 ==> is_outermost(search.unit.entries@, places, from),
        kept.len() > 0 ==> is_nearest(search.unit.entries@, places, from, kept.last()),
        details::enclosing_ranges(search, after) == if kept.len() == 0 {
            seq![search.range]
        } else {
            work_outline(work)[kept.last()].1.ranges
        },
{
    let entries = search.unit.entries@;
    let outlined = work_outline(work);
    assert forall|t: int| 0 <= t < kept.len() implies encloses(
        entries,
        places[#[trigger] kept[t]],
        from,
    ) by {
        assert(kept[t] == open[t]);
        assert(places[open[t]] < from);
        assert(after.stack[t].0 < entries[from].depth);
        assert forall|e: int| places[kept[t]] < e <= from implies (#[trigger] entries[e]).depth
            > entries[places[kept[t]]].depth by {
            if e < from {
                assert(entries[e].depth > work.stack[t].0);
            }
        }
    }
    assert forall|j: int| 0 <= j < places.len() && !kept.contains(j) implies !encloses(
        entries,
        #[trigger] places[j],
        from,
    ) && is_closed(entries, places[j], from + 1) by {
        if open.contains(j) {
            let t = choose|t: int| 0 <= t < open.len() && open[t] == j;
            if t < kept.len() {
                assert(kept[t] == j);
            }
            assert(entries[from].depth <= work.stack[t].0);
            assert(entries[from].depth <= entries[places[j]].depth);
            assert(places[j] < from);
        } else {
            assert(is_closed(entries, places[j], from));
            let e = choose|e: int|
                places[j] < e < from && (#[trigger] entries[e]).depth <= entries[places[j]].depth;
            assert(entries[e].depth <= entries[places[j]].depth);
        }
    }
    if kept.len() > 0 {
        let last = kept.len() - 1;
        let p = kept.last();
        assert(kept[last] == open[last]);
        assert(encloses(entries, places[kept[last]], from));
        assert forall|i: int| p < i < places.len() implies !encloses(
            entries,
            #[trigger] places[i],
            from,
        ) by {
            if kept.contains(i) {
                let t = choose|t: int| 0 <= t < kept.len() && kept[t] == i;
                if t < last {
                    assert(open[t] < open[last]);
                }
            }
        }
        assert(after.stack.last() == after.stack[last]);
        assert(after.stack[last].1.ranges == work.stack[last].1.ranges);
    }
}

proof fn lemma_grown_nested(
    search: Search,
    places: Seq<int>,
    outlined: Seq<(nat, InlineView)>,
    place: int,
    level: nat,
    node: InlineView,
    j: int,
)
    requires
        0 <= j < places.len(),
        places.len() == outlined.len(),
        places[j] < place,
        is_nested(search, places, outlined, j),
    ensures
        is_nested(search, places.push(place), outlined.push((level, node)), j),
{
    let entries = search.unit.entries@;
    let more = places.push(place);
    let longer = outlined.push((level, node));
    assert(more[j] == places[j]);
    assert(longer[j] == outlined[j]);
    if is_outermost(entries, places, places[j]) && outlined[j].0 == 0 && reads_as(
        search,
        places[j],
        seq![search.range],
        Some(outlined[j].1),
    ) {
        assert(is_outermost(entries, more, more[j]));
    } else {
        let p = choose|p: int| #[trigger]
            is_nearest(entries, places, places[j], p) && is_child(outlined, p, j) && reads_as(
                search,
                places[j],
                outlined[p].1.ranges,
                Some(outlined[j].1),
            );
        assert(is_nearest(entries, more, more[j], p)) by {
            assert forall|i: int| p < i < more.len() implies !encloses(
                entries,
                #[trigger] more[i],
                more[j],
            ) by {
                if i < places.len() {
                    assert(more[i] == places[i]);
                }
            }
        }
        assert(is_child(longer, p, j)) by {
            assert forall|i: int| p < i < j implies (#[trigger] longer[i]).0 > longer[p].0 by {
                assert(longer[i] == outlined[i]);
            }
        }
    }
}

proof fn lemma_grown_left_out(
    search: Search,
    places: Seq<int>,
    outlined: Seq<(nat, InlineView)>,
    place: int,
    level: nat,
    node: InlineView,
    e: int,
)
    requires
        places.len() == outlined.len(),
        e < place,
        is_left_out(search, places, outlined, e),
    ensures
        is_left_out(search, places.push(place), outlined.push((level, node)), e),
{
    let entries = search.unit.entries@;
    let more = places.push(place);
    let longer = outlined.push((level, node));
    if is_outermost(entries, places, e) && reads_as(search, e, seq![search.range], None) {
        assert(is_outermost(entries, more, e));
    } else {
        let p = choose|p: int| #[trigger]
            is_nearest(entries, places, e, p) && reads_as(search, e, outlined[p].1.ranges, None);
        assert(is_nearest(entries, more, e, p)) by {
            assert forall|i: int| p < i < more.len() implies !encloses(
                entries,
                #[trigger] more[i],
                e,
            ) by {
                if i < places.len() {
                    assert(more[i] == places[i]);
                }
            }
        }
        assert(longer[p] == outlined[p]);
    }
}

/// One entry further.
proof fn lemma_entry_followed(
    search: Search,
    index: int,
    from: int,
    found: Details,
    places: Seq<int>,
    open: Seq<int>,
) -> (grown: (Seq<int>, Seq<int>))
    requires
        search.inlines,
        found.error is None,
        from < search.unit.entries@.len(),
        followed(search, index, from, found.inline, places, open),
        details::with_entry(search, found, search.unit.entries@[from]).error is None,
    ensures
        followed(
            search,
            index,
            from + 1,
            details::with_entry(search, found, search.unit.entries@[from]).inline,
            grown.0,
            grown.1,
        ),
{
    let entries = search.unit.entries@;
    let entry = entries[from];
    let work = found.inline;
    let outlined = work_outline(work);
    assert forall|s: int, t: int| 0 <= s < t < open.len() implies (#[trigger] work.stack[s]).0 < (
    #[trigger] work.stack[t]).0 by {
        assert(open[s] < open[t]);
    }
    let kept = lemma_stack_shrinks(work, open, entry.depth);
    let after = dies::inlines_finished(work, entry.depth);
    lemma_around(search, index, from, work, after, places, open, kept);
    let above = Details {
        calls: dies::call_sites_finished(found.calls, entry.depth),
        inline: after,
        ..found
    };
    let called = details::with_call_site(search, above, entry);
    assert(called.inline == after);
    let next = details::with_entry(search, found, entry);
    assert(next == details::with_inline(search, called, entry));
    assert forall|t: int| 0 <= t < kept.len() implies #[trigger] kept[t] == open[t] by {}
    if entry.tag != DW_TAG_INLINED_SUBROUTINE {
        assert(next.inline == after);
        assert(followed(search, index, from + 1, after, places, kept)) by {
            lemma_kept_followed(search, index, from, work, after, places, open, kept);
        }
        (places, kept)
    } else {
        let ranges = details::enclosing_ranges(search, after);
        let made = dies::inline_node_of(
            search.units,
            search.supplementary,
            search.unit,
            entry,
            ranges,
            search.files,
            called.warnings,
        );
        match made.result {
            Err(_) => (places, kept),
            Ok(None) => {
                assert(reads_as(search, from, ranges, None));
                assert(is_left_out(search, places, outlined, from));
                lemma_kept_followed(search, index, from, work, after, places, open, kept);
                (places, kept)
            },
            Ok(Some(node)) => {
                let level = after.stack.len();
                assert(reads_as(search, from, ranges, Some(node)));
                lemma_pushed_outline(after, entry.depth, node);
                let more = places.push(from);
                let opened = kept.push(places.len() as int);
                let longer = outlined.push((level, node));
                assert(work_outline(next.inline) == longer);
                lemma_push_followed(
                    search,
                    index,
                    from,
                    work,
                    after,
                    next.inline,
                    places,
                    open,
                    kept,
                    node,
                );
                (more, opened)
            },
        }
    }
}

/// An entry that brings no call.
proof fn lemma_kept_followed(
    search: Search,
    index: int,
    from: int,
    work: InlineWork,
    after: InlineWork,
    places: Seq<int>,
    open: Seq<int>,
    kept: Seq<int>,
)
    requires
        followed(search, index, from, work, places, open),
        from < search.unit.entries@.len(),
        work_outline(after) == work_outline(work),
        kept.len() == after.stack.len(),
        kept.len() <= open.len(),
        kept == open.take(kept.len() as int),
        forall|t: int|
            0 <= t < kept.len() ==> {
                &&& (#[trigger] after.stack[t]).0 == work.stack[t].0
                &&& after.stack[t].1.ranges == work.stack[t].1.ranges
                &&& after.stack[t].0 < search.unit.entries@[from].depth
            },
        forall|j: int|
            0 <= j < places.len() && !kept.contains(j) ==> is_closed(
                search.unit.entries@,
                #[trigger] places[j],
                from + 1,
            ),
        search.unit.entries@[from].tag == DW_TAG_INLINED_SUBROUTINE ==> is_left_out(
            search,
            places,
            work_outline(work),
            from,
        ),
    ensures
        followed(search, index, from + 1, after, places, kept),
{
    let entries = search.unit.entries@;
    let outlined = work_outline(work);
    assert forall|t: int| 0 <= t < kept.len() implies #[trigger] kept[t] == open[t] by {}
    assert forall|t: int, e: int|
        #![trigger kept[t], entries[e]]
        0 <= t < kept.len() && places[kept[t]] < e < from + 1 implies entries[e].depth
        > after.stack[t].0 by {
        assert(kept[t] == open[t]);
        assert(after.stack[t].0 == work.stack[t].0);
        if e < from {
            assert(entries[e].depth > work.stack[t].0);
        }
    }
    assert forall|s: int, t: int| 0 <= s < t < kept.len() implies (#[trigger] kept[s]) < (
    #[trigger] kept[t]) && after.stack[s].0 < after.stack[t].0 by {
        assert(open[s] < open[t]);
    }
    assert forall|t: int| 0 <= t < kept.len() implies {
        &&& 0 <= (#[trigger] kept[t]) < places.len()
        &&& outlined[kept[t]].0 == t
        &&& after.stack[t].0 == entries[places[kept[t]]].depth
        &&& after.stack[t].1.ranges == outlined[kept[t]].1.ranges
    } by {
        assert(kept[t] == open[t]);
        assert(after.stack[t].0 == work.stack[t].0);
    }
    assert forall|t: int, i: int|
        #![trigger kept[t], outlined[i]]
        0 <= t < kept.len() && kept[t] < i < places.len() implies outlined[i].0 > t by {
        assert(kept[t] == open[t]);
    }
}

/// An entry that brings a call.
proof fn lemma_push_followed(
    search: Search,
    index: int,
    from: int,
    work: InlineWork,
    after: InlineWork,
    next: InlineWork,
    places: Seq<int>,
    open: Seq<int>,
    kept: Seq<int>,
    node: InlineView,
)
    requires
        followed(search, index, from, work, places, open),
        from < search.unit.entries@.len(),
        work_outline(after) == work_outline(work),
        kept.len() == after.stack.len(),
        kept.len() <= open.len(),
        kept == open.take(kept.len() as int),
        forall|t: int|
            0 <= t < kept.len() ==> {
                &&& (#[trigger] after.stack[t]).0 == work.stack[t].0
                &&& after.stack[t].1.ranges == work.stack[t].1.ranges
                &&& after.stack[t].0 < search.unit.entries@[from].depth
            },
        forall|j: int|
            0 <= j < places.len() && !kept.contains(j) ==> is_closed(
                search.unit.entries@,
                #[trigger] places[j],
                from + 1,
            ),
        kept.len() == 0 ==> is_outermost(search.unit.entries@, places, from),
        kept.len() > 0 ==> is_nearest(search.unit.entries@, places, from, kept.last()),
        reads_as(
            search,
            from,
            if kept.len() == 0 {
                seq![search.range]
            } else {
                work_outline(work)[kept.last()].1.ranges
            },
            Some(node),
        ),
        search.unit.entries@[from].tag == DW_TAG_INLINED_SUBROUTINE,
        next.stack == after.stack.push((search.unit.entries@[from].depth, node)),
        work_outline(next) == work_outline(work).push((after.stack.len(), node)),
    ensures
        followed(
            search,
            index,
            from + 1,
            next,
            places.push(from),
            kept.push(places.len() as int),
        ),
{
    let entries = search.unit.entries@;
    let outlined = work_outline(work);
    let longer = work_outline(next);
    let level = after.stack.len();
    let more = places.push(from);
    let opened = kept.push(places.len() as int);
    let j = places.len() as int;
    assert forall|t: int| 0 <= t < kept.len() implies #[trigger] kept[t] == open[t] by {}
    assert(more[j] == from);
    assert(longer[j] == (level, node));
    assert forall|t: int| 0 <= t < opened.len() implies {
        &&& 0 <= (#[trigger] opened[t]) < more.len()
        &&& longer[opened[t]].0 == t
        &&& next.stack[t].0 == entries[more[opened[t]]].depth
        &&& next.stack[t].1.ranges == longer[opened[t]].1.ranges
    } by {
        if t < kept.len() {
            assert(opened[t] == open[t]);
            assert(next.stack[t] == after.stack[t]);
            assert(longer[open[t]] == outlined[open[t]]);
            assert(more[open[t]] == places[open[t]]);
        }
    }
    assert forall|s: int, t: int| 0 <= s < t < opened.len() implies (#[trigger] opened[s]) < (
    #[trigger] opened[t]) && next.stack[s].0 < next.stack[t].0 by {
        assert(opened[s] == open[s]);
        assert(next.stack[s] == after.stack[s]);
        if t < kept.len() {
            assert(open[s] < open[t]);
            assert(next.stack[t] == after.stack[t]);
        }
    }
    assert forall|t: int, e: int|
        #![trigger opened[t], entries[e]]
        0 <= t < opened.len() && more[opened[t]] < e < from + 1 implies entries[e].depth
        > next.stack[t].0 by {
        if t < kept.len() {
            assert(opened[t] == open[t]);
            assert(more[open[t]] == places[open[t]]);
            assert(next.stack[t] == after.stack[t]);
            if e < from {
                assert(entries[e].depth > work.stack[t].0);
            }
        }
    }
    assert forall|i: int| 0 <= i < more.len() && !opened.contains(i) implies is_closed(
        entries,
        #[trigger] more[i],
        from + 1,
    ) by {
        if i == j {
            assert(opened[kept.len() as int] == j);
        } else {
            if kept.contains(i) {
                let t = choose|t: int| 0 <= t < kept.len() && kept[t] == i;
                assert(opened[t] == i);
            }
            assert(more[i] == places[i]);
        }
    }
    assert forall|t: int, i: int|
        #![trigger opened[t], longer[i]]
        0 <= t < opened.len() && opened[t] < i < more.len() implies longer[i].0 > t by {
        if t < kept.len() {
            assert(opened[t] == open[t]);
            if i < j {
                assert(longer[i] == outlined[i]);
            }
        }
    }
    assert forall|i: int| 0 <= i < more.len() implies #[trigger] is_nested(
        search,
        more,
        longer,
        i,
    ) by {
        if i < j {
            assert(places[i] < from);
            lemma_grown_nested(search, places, outlined, from, level, node, i);
        } else if kept.len() == 0 {
            assert(is_outermost(entries, more, from)) by {
                assert forall|k: int| 0 <= k < more.len() implies !encloses(
                    entries,
                    #[trigger] more[k],
                    from,
                ) by {
                    if k < j {
                        assert(more[k] == places[k]);
                    }
                }
            }
        } else {
            let last = kept.len() - 1;
            let p = kept.last();
            assert(p == open[last]);
            assert(is_nearest(entries, more, from, p)) by {
                assert forall|k: int| p < k < more.len() implies !encloses(
                    entries,
                    #[trigger] more[k],
                    from,
                ) by {
                    if k < j {
                        assert(more[k] == places[k]);
                    }
                }
            }
            assert(longer[p] == outlined[p]);
            assert(is_child(longer, p, j)) by {
                assert forall|k: int| p < k < j implies (#[trigger] longer[k]).0 > longer[p].0 by {
                    assert(longer[k] == outlined[k]);
                    assert(outlined[k].0 > last);
                }
            }
        }
    }
    assert forall|e: int|
        index < e < from + 1 && (#[trigger] entries[e]).tag == DW_TAG_INLINED_SUBROUTINE
            && !more.contains(e) implies is_left_out(search, more, longer, e) by {
        if e == from {
            assert(more[j] == e);
        } else {
            if places.contains(e) {
                let k = choose|k: int| 0 <= k < places.len() && places[k] == e;
                assert(more[k] == e);
            }
            lemma_grown_left_out(search, places, outlined, from, level, node, e);
        }
    }
    assert forall|i: int| 0 <= i < more.len() implies index < (#[trigger] more[i]) < from + 1
        && entries[more[i]].tag == DW_TAG_INLINED_SUBROUTINE by {
        if i < j {
            assert(more[i] == places[i]);
        }
    }
    assert forall|a: int, b: int| 0 <= a < b < more.len() implies (#[trigger] more[a]) < (
    #[trigger] more[b]) by {
        assert(more[a] == places[a]);
        if b < j {
            assert(more[b] == places[b]);
        }
    }
}

/// The entries that lie below a subprogram followed to their end.
proof fn lemma_descended_followed(
    search: Search,
    index: int,
    root: isize,
    from: int,
    found: Details,
    places: Seq<int>,
    open: Seq<int>,
) -> (ended: (int, Seq<int>, Seq<int>))
    requires
        search.inlines,
        found.error is None,
        root == search.unit.entries@[index].depth,
        followed(search, index, from, found.inline, places, open),
        forall|e: int| index < e < from ==> (#[trigger] search.unit.entries@[e]).depth > root,
        details::descended(search, found, root, from).error is None,
    ensures
        from <= ended.0,
        followed(
            search,
            index,
            ended.0,
            details::descended(search, found, root, from).inline,
            ended.1,
            ended.2,
        ),
        forall|e: int| index < e < ended.0 ==> (#[trigger] search.unit.entries@[e]).depth > root,
        ended.0 == search.unit.entries@.len() || search.unit.entries@[ended.0].depth <= root,
    decreases search.unit.entries@.len() - from,
{
    let entries = search.unit.entries@;
    if from >= entries.len() || entries[from].depth <= root {
        (from, places, open)
    } else {
        let next = details::with_entry(search, found, entries[from]);
        let (more, opened) = lemma_entry_followed(search, index, from, found, places, open);
        lemma_descended_followed(search, index, root, from + 1, next, more, opened)
    }
}

/// Whether the inline trees of the subprogram at `index` are those of the entries
/// at `places`, which come before `end`.
pub open spec fn trees_follow_entries(
    search: Search,
    index: int,
    trees: Seq<InlineView>,
    places: Seq<int>,
    end: int,
) -> bool {
    let entries = search.unit.entries@;
    let outlined = outline(trees, trees.len(), 0);
    &&& index < end <= entries.len()
    &&& forall|e: int| index < e < end ==> encloses(entries, index, e)
    &&& end < entries.len() ==> !encloses(entries, index, end)
    &&& outlined.len() == places.len()
    &&& forall|j: int|
        0 <= j < places.len() ==> index < (#[trigger] places[j]) < end && entries[places[j]].tag
            == DW_TAG_INLINED_SUBROUTINE
    &&& forall|i: int, j: int|
        0 <= i < j < places.len() ==> (#[trigger] places[i]) < (#[trigger] places[j])
    &&& forall|j: int| 0 <= j < places.len() ==> #[trigger] is_nested(search, places, outlined, j)
    &&& forall|e: int|
        index < e < end && (#[trigger] entries[e]).tag == DW_TAG_INLINED_SUBROUTINE
            && !places.contains(e) ==> is_left_out(search, places, outlined, e)
}

/// The inline trees of a subprogram nest as its entries do. Each call of an outline
/// of the trees is that of one entry below the subprogram, in the same order: it
/// is a child of the call of the nearest entry around it that is a call, and
/// outermost where there is none. An entry of an inlined subroutine brings no call
/// only where it has no name, or no range in those around it.
pub proof fn law_inline_calls_nest_as_entries(
    search: Search,
    index: int,
    warnings: Seq<WarningView>,
)
    requires
        search.inlines,
        0 <= index < search.unit.entries@.len(),
    ensures
        details::descendants_of(search, index, warnings).result matches Ok(found)
            ==> exists|places: Seq<int>, end: int| #[trigger]
            trees_follow_entries(search, index, found.inlines, places, end),
{
    let entries = search.unit.entries@;
    if let Ok(found) = details::descendants_of(search, index, warnings).result {
        let root = entries[index].depth;
        let nothing = details::nothing_found(warnings);
        let none = Seq::<int>::empty();
        assert(outline(nothing.inline.roots, 0, 0) =~= Seq::empty());
        assert(path_outline(nothing.inline.stack, 0) =~= Seq::empty());
        assert(work_outline(nothing.inline) =~= Seq::empty());
        assert(followed(search, index, index + 1, nothing.inline, none, none));
        let (end, places, open) = lemma_descended_followed(
            search,
            index,
            root,
            index + 1,
            nothing,
            none,
            none,
        );
        let work = details::descended(search, nothing, root, index + 1).inline;
        lemma_all_finished_outline(work);
        assert(trees_follow_entries(search, index, found.inlines, places, end));
    }
}

/// A number, as far as numbers go.
pub open spec fn capped(count: nat) -> usize {
    if count < usize::MAX {
        count as usize
    } else {
        usize::MAX
    }
}

proof fn lemma_inlines_finished_outline(work: InlineWork, depth: isize)
    ensures
        work_outline(dies::inlines_finished(work, depth)) == work_outline(work),
    decreases work.stack.len(),
{
    if work.stack.len() > 0 && work.stack.last().0 >= depth {
        lemma_finished_outline(work);
        lemma_inlines_finished_outline(dies::inline_finished(work), depth);
    }
}

proof fn lemma_descended_counted(search: Search, found: Details, root: isize, from: int)
    requires
        found.count == capped(work_outline(found.inline).len()),
    ensures
        ({
            let after = details::descended(search, found, root, from);
            after.error is None ==> after.count == capped(work_outline(after.inline).len())
        }),
    decreases search.unit.entries@.len() - from,
{
    let entries = search.unit.entries@;
    if 0 <= from < entries.len() && entries[from].depth > root {
        let entry = entries[from];
        let next = details::with_entry(search, found, entry);
        lemma_inlines_finished_outline(found.inline, entry.depth);
        if next.error is None {
            let above = dies::inlines_finished(found.inline, entry.depth);
            if next.inline != above {
                lemma_pushed_outline(above, entry.depth, next.inline.stack.last().1);
            }
            lemma_descended_counted(search, next, root, from + 1);
        }
    }
}

/// The inline calls that are counted below a subprogram are those of its inline
/// trees.
pub proof fn law_inline_calls_are_counted(
    search: Search,
    index: int,
    warnings: Seq<WarningView>,
)
    ensures
        details::descendants_of(search, index, warnings).result matches Ok(found) ==> found.count
            == capped(outline(found.inlines, found.inlines.len(), 0).len()),
{
    let root = search.unit.entries@[index].depth;
    let nothing = details::nothing_found(warnings);
    assert(work_outline(nothing.inline) =~= Seq::empty());
    lemma_descended_counted(search, nothing, root, index + 1);
    lemma_all_finished_outline(details::descended(search, nothing, root, index + 1).inline);
}

} // verus!
