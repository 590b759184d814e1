//! Laws on which functions are kept of those that share a range.
use vstd::prelude::*;
use crate::model::{AddressRange, CallSiteView, FunctionView, InlineView};
use crate::normalize;
use crate::sort;
use crate::writer::finalize;
use crate::writer::finalize::FunctionSetPolicy;
use crate::writer::insertion;
use crate::writer::ordering;
use crate::writer::ordering::InlineQuality;

verus! {

/// Number of nodes of an inline tree.
pub open spec fn tree_size(node: InlineView) -> nat
    decreases node, 0int,
{
    1 + forest_size(node.children, node.children.len())
}

/// Number of nodes of the first `count` of some inline trees.
pub open spec fn forest_size(nodes: Seq<InlineView>, count: nat) -> nat
    decreases nodes, count,
{
    if count == 0 || count > nodes.len() {
        0
    } else {
        forest_size(nodes, (count - 1) as nat) + tree_size(nodes[count - 1])
    }
}

/// Number of ranges in an inline tree.
pub open spec fn tree_ranges(node: InlineView) -> nat
    decreases node, 0int,
{
    node.ranges.len() + forest_ranges(node.children, node.children.len())
}

/// Number of ranges in the first `count` of some inline trees.
pub open spec fn forest_ranges(nodes: Seq<InlineView>, count: nat) -> nat
    decreases nodes, count,
{
    if count == 0 || count > nodes.len() {
        0
    } else {
        forest_ranges(nodes, (count - 1) as nat) + tree_ranges(nodes[count - 1])
    }
}

/// Number of nodes on the longest path down an inline tree.
pub open spec fn tree_depth(node: InlineView) -> nat
    decreases node, 0int,
{
    1 + forest_depth(node.children, node.children.len())
}

/// Number of nodes on the longest path down one of the first `count` of some inline
/// trees.
pub open spec fn forest_depth(nodes: Seq<InlineView>, count: nat) -> nat
    decreases nodes, count,
{
    if count == 0 || count > nodes.len() {
        0
    } else {
        let before = forest_depth(nodes, (count - 1) as nat);
        let last = tree_depth(nodes[count - 1]);
        if last > before {
            last
        } else {
            before
        }
    }
}

/// Number of the first `count` call sites and of their patterns.
pub open spec fn call_records(sites: Seq<CallSiteView>, count: nat) -> nat
    decreases count,
{
    if count == 0 || count > sites.len() {
        0
    } else {
        call_records(sites, (count - 1) as nat) + 1 + sites[count - 1].match_regex.len()
    }
}

/// A number, or the highest that a machine word holds.
pub open spec fn counted(number: nat) -> nat {
    if number > usize::MAX {
        usize::MAX as nat
    } else {
        number
    }
}

/// How much an inline tree says: its nodes, their ranges, and how deep it is.
pub open spec fn tree_measures(inline: Option<InlineView>) -> (nat, nat, nat) {
    match inline {
        Some(node) => (
            counted(tree_size(node)),
            counted(tree_ranges(node)),
            counted(tree_depth(node)),
        ),
        None => (0, 0, 0),
    }
}

/// Whether a function says no more than another: one without an inline tree no
/// more than one with a tree, one with a smaller tree no more than one with a
/// larger, then one with fewer ranges in it, then one with a shallower tree. Of two
/// whose trees say as much it is the one with fewer rows, or as many rows and fewer
/// call sites and patterns.
pub open spec fn says_no_more(a: FunctionView, b: FunctionView) -> bool {
    let (a_nodes, a_ranges, a_depth) = tree_measures(a.inline);
    let (b_nodes, b_ranges, b_depth) = tree_measures(b.inline);
    &&& a.inline is Some ==> b.inline is Some
    &&& (a.inline is Some && b.inline is Some) ==> {
        &&& a_nodes <= b_nodes
        &&& a_nodes == b_nodes ==> a_ranges <= b_ranges
        &&& a_nodes == b_nodes && a_ranges == b_ranges ==> a_depth <= b_depth
    }
    &&& (a.inline is Some <==> b.inline is Some) && tree_measures(a.inline) == tree_measures(
        b.inline,
    ) ==> {
        &&& counted(a.lines.len()) <= counted(b.lines.len())
        &&& counted(a.lines.len()) == counted(b.lines.len()) ==> counted(
            call_records(a.call_sites, a.call_sites.len()),
        ) <= counted(call_records(b.call_sites, b.call_sites.len()))
    }
}

/// Whether a name comes no later than another: it is the start of the other, or has a
/// lower byte where they first differ.
pub open spec fn name_at_most(a: Seq<u8>, b: Seq<u8>) -> bool {
    exists|i: int| #[trigger] parts_at(a, b, i)
}

/// Whether two names agree up to a place where the first ends or has the lower byte.
pub open spec fn parts_at(a: Seq<u8>, b: Seq<u8>, i: int) -> bool {
    &&& 0 <= i <= a.len()
    &&& i <= b.len()
    &&& forall|k: int| 0 <= k < i ==> #[trigger] a[k] == b[k]
    &&& i == a.len() || (i < b.len() && a[i] < b[i])
}

/// Whether a function says no more than another, and where they say as much its name
/// comes no later.
pub open spec fn is_no_better(a: FunctionView, b: FunctionView) -> bool {
    &&& says_no_more(a, b)
    &&& says_no_more(b, a) ==> name_at_most(a.name, b.name)
}

/// A function with its rows compacted and nothing merged into it.
pub open spec fn alone(function: FunctionView) -> FunctionView {
    FunctionView {
        lines: normalize::compacted(function.lines),
        merged: Seq::empty(),
        ..function
    }
}

proof fn lemma_name_at_most(a: Seq<u8>, b: Seq<u8>, i: int)
    requires
        0 <= i <= a.len(),
        i <= b.len(),
        forall|k: int| 0 <= k < i ==> #[trigger] a[k] == b[k],
        ordering::bytes_at_most(a, b, i),
    ensures
        name_at_most(a, b),
    decreases a.len() - i,
{
    if i < a.len() && a[i] == b[i] {
        lemma_name_at_most(a, b, i + 1);
    } else {
        assert(parts_at(a, b, i));
    }
}

/// Whether two functions have the same rows, inline tree and call sites.
pub open spec fn same_records(a: FunctionView, b: FunctionView) -> bool {
    a.lines == b.lines && a.inline == b.inline && a.call_sites == b.call_sites
}

proof fn lemma_forest_grows(nodes: Seq<InlineView>, low: nat, high: nat)
    requires
        low <= high <= nodes.len(),
    ensures
        forest_size(nodes, low) <= forest_size(nodes, high),
        forest_ranges(nodes, low) <= forest_ranges(nodes, high),
        forest_depth(nodes, low) <= forest_depth(nodes, high),
    decreases high,
{
    if low < high {
        lemma_forest_grows(nodes, low, (high - 1) as nat);
    }
}

proof fn lemma_tree_counted(node: InlineView)
    ensures
        ordering::inline_quality_of(node).nodes == counted(tree_size(node)),
        ordering::inline_quality_of(node).ranges == counted(tree_ranges(node)),
        ordering::inline_quality_of(node).depth == counted(tree_depth(node)),
    decreases node, 0int,
{
    lemma_forest_counted(
        node.children,
        0,
        InlineQuality {
            nodes: 1,
            ranges: ordering::saturated(node.ranges.len() as int) as usize,
            depth: 1,
        },
        1,
        node.ranges.len(),
        1,
    );
}

proof fn lemma_forest_counted(
    nodes: Seq<InlineView>,
    i: int,
    quality: InlineQuality,
    before: nat,
    ranges: nat,
    depth: nat,
)
    requires
        0 <= i <= nodes.len(),
        quality.nodes == counted(before),
        quality.ranges == counted(ranges),
        quality.depth == counted(depth),
        depth == 1 + forest_depth(nodes, i as nat),
    ensures
        ordering::qualities_from(nodes, i, quality).nodes == counted(
            (before + forest_size(nodes, nodes.len()) - forest_size(nodes, i as nat)) as nat,
        ),
        ordering::qualities_from(nodes, i, quality).ranges == counted(
            (ranges + forest_ranges(nodes, nodes.len()) - forest_ranges(nodes, i as nat)) as nat,
        ),
        ordering::qualities_from(nodes, i, quality).depth == counted(
            1 + forest_depth(nodes, nodes.len()),
        ),
    decreases nodes, nodes.len() - i,
{
    lemma_forest_grows(nodes, i as nat, nodes.len());
    if i < nodes.len() {
        let child = ordering::inline_quality_of(nodes[i]);
        lemma_tree_counted(nodes[i]);
        lemma_forest_grows(nodes, (i + 1) as nat, nodes.len());
        let grown = InlineQuality {
            nodes: ordering::saturated(quality.nodes + child.nodes) as usize,
            ranges: ordering::saturated(quality.ranges + child.ranges) as usize,
            depth: if ordering::saturated(child.depth + 1) > quality.depth {
                ordering::saturated(child.depth + 1) as usize
            } else {
                quality.depth
            },
        };
        lemma_forest_counted(
            nodes,
            i + 1,
            grown,
            before + tree_size(nodes[i]),
            ranges + tree_ranges(nodes[i]),
            1 + forest_depth(nodes, (i + 1) as nat),
        );
    }
}

proof fn lemma_calls_counted(sites: Seq<CallSiteView>, count: nat)
    requires
        count <= sites.len(),
    ensures
        ordering::saturated(count + ordering::pattern_count(sites, count as int)) == counted(
            call_records(sites, count),
        ),
        count <= call_records(sites, count),
        ordering::pattern_count(sites, count as int) == counted(
            (call_records(sites, count) - count) as nat,
        ),
    decreases count,
{
    if count > 0 {
        lemma_calls_counted(sites, (count - 1) as nat);
    }
}

/// A function that ranks no higher than another with its range says no more.
proof fn lemma_rank_is_richness(a: FunctionView, b: FunctionView)
    requires
        ordering::at_most(a, b),
        a.range == b.range,
    ensures
        says_no_more(a, b),
        a.merged.len() == 0 && b.merged.len() == 0 ==> is_no_better(a, b),
        a.merged.len() == 0 && finalize::is_rich(a) ==> finalize::is_rich(b) || b.merged.len() > 0,
{
    if let Some(node) = a.inline {
        lemma_tree_counted(node);
    }
    if let Some(node) = b.inline {
        lemma_tree_counted(node);
    }
    lemma_calls_counted(a.call_sites, a.call_sites.len());
    lemma_calls_counted(b.call_sites, b.call_sites.len());
    if a.merged.len() == 0 && b.merged.len() == 0 && says_no_more(b, a) {
        if a.name == b.name {
            assert(parts_at(a.name, b.name, a.name.len() as int));
        } else {
            lemma_name_at_most(a.name, b.name, 0);
        }
    }
}

/// Whether a function is one of those given, the highest that has its range.
pub open spec fn is_highest(given: Seq<FunctionView>, function: FunctionView) -> bool {
    &&& given.contains(function)
    &&& forall|h: int|
        0 <= h < given.len() && (#[trigger] given[h]).range == function.range
            ==> ordering::at_most(given[h], function)
}

/// Whether a function stands for the highest of those given that have its range:
/// it has its records, and its name or the mangled form of that name, which
/// another of them has.
pub open spec fn stands_for_highest(given: Seq<FunctionView>, one: FunctionView) -> bool {
    exists|g: FunctionView| #[trigger]
        is_highest(given, g) && g.range == one.range && same_records(g, one) && (one.name == g.name
            || exists|h: int|
            0 <= h < given.len() && (#[trigger] given[h]).range == one.range && given[h].name
                == one.name && !finalize::is_rich(given[h]) && finalize::mangles(one.name, g.name))
}

/// Whether a function with a range is kept, or one that covers it where its size
/// is unknown.
pub open spec fn is_kept_or_covered(kept: Seq<FunctionView>, range: AddressRange) -> bool {
    exists|k: int|
        0 <= k < kept.len() && ((#[trigger] kept[k]).range == range || (range.start == range.end
            && kept[k].range.start <= range.start < kept[k].range.end))
}

spec fn ranked(functions: Seq<FunctionView>) -> bool {
    forall|i: int, j: int|
        0 <= i <= j < functions.len() ==> ordering::at_most(
            #[trigger] functions[i],
            #[trigger] functions[j],
        )
}

proof fn lemma_deduplicated(functions: Seq<FunctionView>)
    requires
        ranked(functions),
        forall|i: int|
            0 <= i < functions.len() ==> (#[trigger] functions[i]).merged.len() == 0
                && functions[i].range.start <= functions[i].range.end,
    ensures
        forall|k: int|
            0 <= k < finalize::deduplicated(functions).len() ==> stands_for_highest(
                functions,
                #[trigger] finalize::deduplicated(functions)[k],
            ),
        forall|h: int|
            0 <= h < functions.len() ==> is_kept_or_covered(
                finalize::deduplicated(functions),
                (#[trigger] functions[h]).range,
            ),
    decreases functions.len(),
{
    let kept = finalize::deduplicated(functions);
    if functions.len() > 0 {
        let rest = functions.drop_last();
        let x = functions.last();
        let n = rest.len() as int;
        assert(functions[n] == x);
        assert(ranked(rest)) by {
            assert forall|i: int, j: int| 0 <= i <= j < rest.len() implies ordering::at_most(
                #[trigger] rest[i],
                #[trigger] rest[j],
            ) by {
                assert(ordering::at_most(functions[i], functions[j]));
            }
        }
        assert forall|i: int| 0 <= i < rest.len() implies (#[trigger] rest[i]).merged.len() == 0
            && rest[i].range.start <= rest[i].range.end by {
            assert(rest[i] == functions[i]);
        }
        lemma_deduplicated(rest);
        let done = finalize::deduplicated(rest);
        assert(finalize::ascending(rest)) by {
            assert forall|i: int, j: int| 0 <= i < j < rest.len() implies !finalize::comes_before(
                (#[trigger] rest[j]).range,
                (#[trigger] rest[i]).range,
            ) by {
                assert(ordering::at_most(rest[i], rest[j]));
            }
        }
        finalize::lemma_deduplicated_ascend(rest);
        assert(is_highest(functions, x)) by {
            assert forall|h: int|
                0 <= h < functions.len() && (#[trigger] functions[h]).range
                    == x.range implies ordering::at_most(functions[h], x) by {
                assert(ordering::at_most(functions[h], functions[n]));
            }
        }
        if rest.len() > 0 {
            assert(rest[n - 1] == functions[n - 1]);
            assert(ordering::at_most(functions[n - 1], functions[n]));
        }
        assert forall|k: int| 0 <= k < kept.len() implies stands_for_highest(
            functions,
            #[trigger] kept[k],
        ) by {
            if k < kept.len() - 1 {
                assert(kept[k] == done[k]);
                let one = done[k];
                assert(done[k].range != x.range) by {
                    if k < done.len() - 1 {
                        assert(finalize::comes_before(done[k].range, done[done.len() - 1].range));
                    }
                }
                assert(stands_for_highest(rest, one));
                let g = choose|g: FunctionView| #[trigger]
                    is_highest(rest, g) && g.range == one.range && same_records(g, one) && (
                    one.name == g.name || exists|h: int|
                        0 <= h < rest.len() && (#[trigger] rest[h]).range == one.range
                            && rest[h].name == one.name && !finalize::is_rich(rest[h])
                            && finalize::mangles(one.name, g.name));
                lemma_still_highest(rest, x, g);
                if one.name != g.name {
                    let h = choose|h: int|
                        0 <= h < rest.len() && (#[trigger] rest[h]).range == one.range
                            && rest[h].name == one.name && !finalize::is_rich(rest[h])
                            && finalize::mangles(one.name, g.name);
                    assert(functions[h] == rest[h]);
                }
                assert(rest.push(x) =~= functions);
            } else if done.len() > 0 && done.last().range == x.range {
                let one = done[done.len() - 1];
                assert(stands_for_highest(rest, one));
                let g = choose|g: FunctionView| #[trigger]
                    is_highest(rest, g) && g.range == one.range && same_records(g, one) && (
                    one.name == g.name || exists|h: int|
                        0 <= h < rest.len() && (#[trigger] rest[h]).range == one.range
                            && rest[h].name == one.name && !finalize::is_rich(rest[h])
                            && finalize::mangles(one.name, g.name));
                let p = choose|p: int| 0 <= p < rest.len() && rest[p] == g;
                assert(functions[p] == rest[p]);
                assert(ordering::at_most(functions[p], functions[n]));
                lemma_rank_is_richness(g, x);
                assert(kept[k] == finalize::kept(one, x));
                if kept[k].name != x.name {
                    assert(!finalize::is_rich(g));
                    if one.name == g.name {
                        assert(functions[p].range == kept[k].range);
                    } else {
                        let h = choose|h: int|
                            0 <= h < rest.len() && (#[trigger] rest[h]).range == one.range
                                && rest[h].name == one.name && !finalize::is_rich(rest[h])
                                && finalize::mangles(one.name, g.name);
                        assert(functions[h] == rest[h]);
                    }
                }
                assert(same_records(x, kept[k]));
            } else {
                assert(kept[k] == x);
                assert(same_records(x, kept[k]));
            }
        }
        assert forall|h: int| 0 <= h < functions.len() implies is_kept_or_covered(
            kept,
            (#[trigger] functions[h]).range,
        ) by {
            let last = kept.len() - 1;
            assert(kept[last].range == x.range);
            if h < n {
                assert(rest[h] == functions[h]);
                let range = rest[h].range;
                assert(is_kept_or_covered(done, range));
                let k = choose|k: int|
                    0 <= k < done.len() && ((#[trigger] done[k]).range == range || (range.start
                        == range.end && done[k].range.start <= range.start < done[k].range.end));
                if k < last {
                    assert(kept[k] == done[k]);
                } else if done.last().range == x.range {
                    assert(kept[last].range == done[k].range);
                } else {
                    assert(done[k].range == range);
                    assert(kept[last].range.start <= range.start < kept[last].range.end);
                }
            }
        }
    }
}

proof fn lemma_still_highest(rest: Seq<FunctionView>, x: FunctionView, g: FunctionView)
    requires
        is_highest(rest, g),
        g.range != x.range,
    ensures
        is_highest(rest.push(x), g),
{
    let functions = rest.push(x);
    let p = choose|p: int| 0 <= p < rest.len() && rest[p] == g;
    assert(functions[p] == g);
    assert forall|h: int|
        0 <= h < functions.len() && (#[trigger] functions[h]).range
            == g.range implies ordering::at_most(functions[h], g) by {
        if h < rest.len() {
            assert(functions[h] == rest[h]);
        }
    }
}

/// Whether none of those that were supplied with the range of a function is better.
pub open spec fn is_best(supplied: Seq<FunctionView>, function: FunctionView) -> bool {
    forall|h: int|
        0 <= h < supplied.len() && (#[trigger] supplied[h]).range == function.range ==> is_no_better(
            alone(supplied[h]),
            alone(function),
        )
}

/// Whether a function that is written is the richest of those that were supplied
/// with its range: it has the inline tree and call sites of one of them and its
/// rows without those that repeat the one before, and no other of them says more. Of
/// those that say as much it is the one with the last name. It has the name of one of
/// them.
pub open spec fn is_richest(supplied: Seq<FunctionView>, written: FunctionView) -> bool {
    &&& exists|g: int|
        0 <= g < supplied.len() && (#[trigger] supplied[g]).range == written.range
            && written.lines == normalize::compacted(supplied[g].lines) && written.inline
            == supplied[g].inline && written.call_sites == supplied[g].call_sites && (written.name
            == supplied[g].name || finalize::mangles(written.name, supplied[g].name))
            && is_best(supplied, supplied[g])
    &&& exists|n: int|
        0 <= n < supplied.len() && (#[trigger] supplied[n]).range == written.range
            && supplied[n].name == written.name
    &&& written.merged.len() == 0
    &&& forall|h: int|
        0 <= h < supplied.len() && (#[trigger] supplied[h]).range == written.range ==> says_no_more(
            FunctionView { lines: normalize::compacted(supplied[h].lines), ..supplied[h] },
            written,
        )
}

/// Of the functions that were supplied with one range the richest is written, and
/// no range is left out but one of unknown size that a function covers. One that the
/// next function covers is left out.
pub proof fn law_the_richest_function_is_kept(
    functions: Seq<FunctionView>,
    ranges: Seq<AddressRange>,
)
    requires
        forall|i: int|
            0 <= i < functions.len() ==> (#[trigger] functions[i]).range.start
                <= functions[i].range.end,
    ensures
        ({
            let written = finalize::finalized(
                functions,
                ranges,
                false,
                FunctionSetPolicy::Deduplicate,
            );
            &&& forall|k: int|
                0 <= k < written.len() ==> is_richest(functions, #[trigger] written[k])
            &&& forall|h: int|
                0 <= h < functions.len() ==> is_kept_or_covered(
                    written,
                    (#[trigger] functions[h]).range,
                )
            &&& forall|k: int|
                0 < k < written.len() && written[k - 1].range.start == written[k - 1].range.end
                    ==> !((#[trigger] written[k]).range.start <= written[k - 1].range.start
                    < written[k].range.end)
        }),
{
    let given = finalize::prepared(functions, FunctionSetPolicy::Deduplicate);
    let ordered = ordering::sorted(given);
    let written = finalize::deduplicated(ordered);
    assert forall|i: int| 0 <= i < given.len() implies #[trigger] given[i] == (FunctionView {
        lines: normalize::compacted(functions[i].lines),
        merged: Seq::empty(),
        ..functions[i]
    }) by {
        normalize::lemma_function_compacted(functions[i]);
    }
    lemma_sorted_ranked(given);
    ordering::law_sorted_functions(given);
    assert forall|i: int| 0 <= i < ordered.len() implies (#[trigger] ordered[i]).merged.len() == 0
        && ordered[i].range.start <= ordered[i].range.end by {
        assert(given.contains(ordered[i]));
        let k = choose|k: int| 0 <= k < given.len() && given[k] == ordered[i];
        assert(functions[k].range == ordered[i].range);
    }
    lemma_deduplicated(ordered);
    assert(finalize::ascending(ordered));
    lemma_none_covered(ordered);
    assert forall|k: int| 0 <= k < written.len() implies is_richest(
        functions,
        #[trigger] written[k],
    ) by {
        let one = written[k];
        assert(stands_for_highest(ordered, one));
        let g = choose|g: FunctionView| #[trigger]
            is_highest(ordered, g) && g.range == one.range && same_records(g, one) && (one.name
                == g.name || exists|h: int|
                0 <= h < ordered.len() && (#[trigger] ordered[h]).range == one.range
                    && ordered[h].name == one.name && !finalize::is_rich(ordered[h])
                    && finalize::mangles(one.name, g.name));
        let p = choose|p: int| 0 <= p < ordered.len() && ordered[p] == g;
        assert(given.contains(ordered[p]));
        let at = choose|at: int| 0 <= at < given.len() && given[at] == g;
        assert(functions[at].range == one.range);
        assert forall|h: int|
            0 <= h < functions.len() && (#[trigger] functions[h]).range
                == one.range implies is_no_better(alone(functions[h]), alone(functions[at])) by {
            assert(given[h] == alone(functions[h]));
            assert(given.contains(given[h]));
            assert(ordered.contains(given[h]));
            let q = choose|q: int| 0 <= q < ordered.len() && ordered[q] == given[h];
            assert(ordering::at_most(ordered[q], g));
            lemma_rank_is_richness(given[h], g);
        }
        assert(is_best(functions, functions[at]));
        if one.name != g.name {
            let h = choose|h: int|
                0 <= h < ordered.len() && (#[trigger] ordered[h]).range == one.range
                    && ordered[h].name == one.name && !finalize::is_rich(ordered[h])
                    && finalize::mangles(one.name, g.name);
            assert(given.contains(ordered[h]));
            let named = choose|named: int| 0 <= named < given.len() && given[named] == ordered[h];
            assert(functions[named].range == one.range && functions[named].name == one.name);
        }
        lemma_kept_unmerged(ordered, k);
        assert forall|h: int|
            0 <= h < functions.len() && (#[trigger] functions[h]).range
                == one.range implies says_no_more(
            FunctionView { lines: normalize::compacted(functions[h].lines), ..functions[h] },
            one,
        ) by {
            let other = given[h];
            assert(given.contains(other));
            assert(ordered.contains(other));
            let q = choose|q: int| 0 <= q < ordered.len() && ordered[q] == other;
            assert(ordering::at_most(ordered[q], g));
            lemma_rank_is_richness(other, g);
        }
    }
    assert forall|h: int| 0 <= h < functions.len() implies is_kept_or_covered(
        written,
        (#[trigger] functions[h]).range,
    ) by {
        assert(given.contains(given[h]));
        assert(ordered.contains(given[h]));
        let q = choose|q: int| 0 <= q < ordered.len() && ordered[q] == given[h];
        assert(is_kept_or_covered(written, ordered[q].range));
    }
}

proof fn lemma_none_covered(functions: Seq<FunctionView>)
    requires
        finalize::ascending(functions),
    ensures
        forall|k: int|
            0 < k < finalize::deduplicated(functions).len() && finalize::deduplicated(
                functions,
            )[k - 1].range.start == finalize::deduplicated(functions)[k - 1].range.end ==> !((
            #[trigger] finalize::deduplicated(functions)[k]).range.start
                <= finalize::deduplicated(functions)[k - 1].range.start < finalize::deduplicated(
                functions,
            )[k].range.end),
    decreases functions.len(),
{
    let kept = finalize::deduplicated(functions);
    if functions.len() > 0 {
        let rest = functions.drop_last();
        let x = functions.last();
        let n = rest.len() as int;
        assert(finalize::ascending(rest)) by {
            assert forall|i: int, j: int| 0 <= i < j < rest.len() implies !finalize::comes_before(
                (#[trigger] rest[j]).range,
                (#[trigger] rest[i]).range,
            ) by {
                assert(!finalize::comes_before(functions[j].range, functions[i].range));
            }
        }
        lemma_none_covered(rest);
        finalize::lemma_deduplicated_ascend(rest);
        let done = finalize::deduplicated(rest);
        assert forall|k: int|
            0 < k < kept.len() && kept[k - 1].range.start == kept[k - 1].range.end implies !((
        #[trigger] kept[k]).range.start <= kept[k - 1].range.start < kept[k].range.end) by {
            if k < done.len() {
                assert(kept[k - 1] == done[k - 1]);
                if kept[k].range == done[k].range {
                    assert(!(done[k].range.start <= done[k - 1].range.start
                        < done[k].range.end));
                } else {
                    assert(kept[k] == x);
                    assert(finalize::comes_before(done[k - 1].range, done[k].range));
                    assert(!finalize::comes_before(functions[n].range, functions[n - 1].range));
                    assert(done[k].range == rest[n - 1].range);
                    assert(functions[n - 1] == rest[n - 1]);
                    assert(!(done[k].range.start <= done[k - 1].range.start
                        < done[k].range.end));
                }
            }
        }
    }
}

proof fn lemma_kept_unmerged(functions: Seq<FunctionView>, k: int)
    requires
        forall|i: int| 0 <= i < functions.len() ==> (#[trigger] functions[i]).merged.len() == 0,
        0 <= k < finalize::deduplicated(functions).len(),
    ensures
        finalize::deduplicated(functions)[k].merged.len() == 0,
    decreases functions.len(),
{
    let rest = functions.drop_last();
    let done = finalize::deduplicated(rest);
    assert forall|i: int| 0 <= i < rest.len() implies (#[trigger] rest[i]).merged.len() == 0 by {
        assert(rest[i] == functions[i]);
    }
    if k < done.len() {
        lemma_kept_unmerged(rest, k);
    }
}

proof fn lemma_sorted_ranked(functions: Seq<FunctionView>)
    ensures
        ranked(ordering::sorted(functions)),
{
    let le = ordering::ranking_of(functions);
    ordering::law_functions_are_ranked(functions);
    sort::lemma_order_exists(le, functions.len());
    let order = sort::order_of(le, functions.len());
    let result = ordering::sorted(functions);
    assert forall|i: int, j: int| 0 <= i <= j < result.len() implies ordering::at_most(
        #[trigger] result[i],
        #[trigger] result[j],
    ) by {
        if i < j {
            assert(sort::before(le, order[i], order[j]));
            assert(le(order[i], order[j]));
        } else {
            assert(le(order[i], order[i]));
        }
    }
}

/// Where every function is written as supplied, none is left out and none is
/// changed.
pub proof fn law_every_function_is_preserved(functions: Seq<FunctionView>, ranges: Seq<AddressRange>)
    ensures
        finalize::finalized(
            functions,
            ranges,
            false,
            FunctionSetPolicy::Preserve,
        ).to_multiset() == functions.to_multiset(),
{
    insertion::lemma_sorted_keeps(functions);
}

/// Whether a function is one of those given, the lowest that has its range.
pub open spec fn is_lowest(given: Seq<FunctionView>, function: FunctionView) -> bool {
    &&& given.contains(function)
    &&& forall|h: int|
        0 <= h < given.len() && (#[trigger] given[h]).range == function.range
            ==> ordering::at_most(function, given[h])
}

/// Whether a function is one of those given with others that have its range
/// merged into it, by rank.
pub open spec fn is_merger(
    given: Seq<FunctionView>,
    one: FunctionView,
    parent: FunctionView,
    others: Seq<FunctionView>,
) -> bool {
    &&& is_lowest(given, parent)
    &&& one == FunctionView { merged: parent.merged + others, ..parent }
    &&& forall|e: int|
        0 <= e < others.len() ==> given.contains(#[trigger] others[e]) && others[e].range
            == parent.range
    &&& forall|d: int, e: int|
        0 <= d <= e < others.len() ==> ordering::at_most(
            #[trigger] others[d],
            #[trigger] others[e],
        )
}

/// Whether a function is one of those given with others merged into it.
pub open spec fn has_merged(given: Seq<FunctionView>, one: FunctionView) -> bool {
    exists|parent: FunctionView, others: Seq<FunctionView>| #[trigger]
        is_merger(given, one, parent, others)
}

/// Whether a function is written, or is merged into one that is.
pub open spec fn is_merged_or_parent(written: Seq<FunctionView>, function: FunctionView) -> bool {
    exists|k: int|
        0 <= k < written.len() && (#[trigger] written[k]).range == function.range && (
        written[k].merged.contains(function) || FunctionView {
            merged: function.merged,
            ..written[k]
        } == function)
}

proof fn lemma_more_given(
    rest: Seq<FunctionView>,
    x: FunctionView,
    one: FunctionView,
    parent: FunctionView,
    others: Seq<FunctionView>,
)
    requires
        is_merger(rest, one, parent, others),
        x.range == parent.range ==> ordering::at_most(parent, x),
    ensures
        is_merger(rest.push(x), one, parent, others),
{
    let functions = rest.push(x);
    let p = choose|p: int| 0 <= p < rest.len() && rest[p] == parent;
    assert(functions[p] == parent);
    assert forall|h: int|
        0 <= h < functions.len() && (#[trigger] functions[h]).range
            == parent.range implies ordering::at_most(parent, functions[h]) by {
        if h < rest.len() {
            assert(functions[h] == rest[h]);
        }
    }
    assert forall|e: int| 0 <= e < others.len() implies functions.contains(#[trigger] others[e]) by {
        assert(rest.contains(others[e]));
        let q = choose|q: int| 0 <= q < rest.len() && rest[q] == others[e];
        assert(functions[q] == others[e]);
    }
}

/// A function of the range of the last one.
proof fn lemma_joined(rest: Seq<FunctionView>, x: FunctionView, one: FunctionView)
    requires
        has_merged(rest, one),
        one.range == x.range,
        forall|h: int| 0 <= h < rest.len() ==> ordering::at_most(#[trigger] rest[h], x),
        ordering::at_most(x, x),
    ensures
        has_merged(rest.push(x), one),
        has_merged(rest.push(x), FunctionView { merged: one.merged.push(x), ..one }),
{
    let functions = rest.push(x);
    let (parent, others) = choose|parent: FunctionView, others: Seq<FunctionView>| #[trigger]
        is_merger(rest, one, parent, others);
    lemma_at_most_of(rest, parent, x);
    lemma_more_given(rest, x, one, parent, others);
    let more = others.push(x);
    let grown = FunctionView { merged: one.merged.push(x), ..one };
    assert(grown.merged =~= parent.merged + more);
    assert(functions[rest.len() as int] == x);
    assert(functions.contains(x));
    assert forall|e: int| 0 <= e < more.len() implies functions.contains(#[trigger] more[e])
        && more[e].range == parent.range by {
        if e < others.len() {
            assert(more[e] == others[e]);
        }
    }
    assert forall|d: int, e: int| 0 <= d <= e < more.len() implies ordering::at_most(
        #[trigger] more[d],
        #[trigger] more[e],
    ) by {
        if e < others.len() {
            assert(more[d] == others[d] && more[e] == others[e]);
        } else if d < others.len() {
            assert(more[d] == others[d]);
            assert(rest.contains(others[d]));
            lemma_at_most_of(rest, others[d], x);
        }
    }
    assert(is_merger(functions, grown, parent, more));
}

/// A function of another range.
proof fn lemma_not_joined(rest: Seq<FunctionView>, x: FunctionView, one: FunctionView)
    requires
        has_merged(rest, one),
        one.range != x.range,
    ensures
        has_merged(rest.push(x), one),
{
    let (parent, others) = choose|parent: FunctionView, others: Seq<FunctionView>| #[trigger]
        is_merger(rest, one, parent, others);
    lemma_more_given(rest, x, one, parent, others);
}

/// A function of a new range.
proof fn lemma_begun(rest: Seq<FunctionView>, x: FunctionView)
    requires
        forall|h: int| 0 <= h < rest.len() ==> (#[trigger] rest[h]).range != x.range,
        ordering::at_most(x, x),
    ensures
        has_merged(rest.push(x), x),
{
    let functions = rest.push(x);
    let none = Seq::<FunctionView>::empty();
    assert(x.merged + none =~= x.merged);
    assert(functions[rest.len() as int] == x);
    assert forall|h: int|
        0 <= h < functions.len() && (#[trigger] functions[h]).range
            == x.range implies ordering::at_most(x, functions[h]) by {
        if h < rest.len() {
            assert(functions[h] == rest[h]);
        }
    }
    assert(is_merger(functions, x, x, none));
}

spec fn all_merged(functions: Seq<FunctionView>, written: Seq<FunctionView>) -> bool {
    forall|k: int| 0 <= k < written.len() ==> has_merged(functions, #[trigger] written[k])
}

spec fn none_lost(functions: Seq<FunctionView>, written: Seq<FunctionView>) -> bool {
    forall|h: int|
        0 <= h < functions.len() ==> is_merged_or_parent(written, #[trigger] functions[h])
}

proof fn lemma_step_merges(rest: Seq<FunctionView>, x: FunctionView, done: Seq<FunctionView>)
    requires
        finalize::ascending(rest),
        done == finalize::merged_functions(rest),
        all_merged(rest, done),
        ordering::at_most(x, x),
        forall|h: int| 0 <= h < rest.len() ==> ordering::at_most(#[trigger] rest[h], x),
    ensures
        all_merged(rest.push(x), finalize::merge_step(done, x)),
{
    let functions = rest.push(x);
    let written = finalize::merge_step(done, x);
    let n = rest.len() as int;
    finalize::lemma_merged_ascend(rest);
    let joins = done.len() > 0 && done.last().range == x.range;
    let last = done.len() - 1;
    assert forall|k: int| 0 <= k < written.len() implies has_merged(
        functions,
        #[trigger] written[k],
    ) by {
        if joins && k == last {
            lemma_joined(rest, x, done[last]);
        } else if k < done.len() {
            assert(written[k] == done[k]);
            if k < last {
                assert(finalize::comes_before(done[k].range, done[last].range));
                assert(done[last].range == rest[n - 1].range);
                assert(ordering::at_most(rest[n - 1], x));
            }
            lemma_not_joined(rest, x, done[k]);
        } else {
            assert(written[k] == x);
            assert forall|h: int| 0 <= h < rest.len() implies (#[trigger] rest[h]).range
                != x.range by {
                assert(rest[n - 1].range != x.range);
                assert(ordering::at_most(rest[n - 1], x));
                if h < n - 1 {
                    assert(!finalize::comes_before(rest[n - 1].range, rest[h].range));
                }
            }
            lemma_begun(rest, x);
        }
    }
}

proof fn lemma_step_loses_none(rest: Seq<FunctionView>, x: FunctionView, done: Seq<FunctionView>)
    requires
        none_lost(rest, done),
    ensures
        none_lost(rest.push(x), finalize::merge_step(done, x)),
{
    let functions = rest.push(x);
    let written = finalize::merge_step(done, x);
    assert forall|h: int| 0 <= h < functions.len() implies is_merged_or_parent(
        written,
        #[trigger] functions[h],
    ) by {
        if h < rest.len() {
            assert(rest[h] == functions[h]);
            lemma_still_merged(done, x, rest[h]);
        } else {
            lemma_now_merged(done, x);
        }
    }
}

proof fn lemma_merged(functions: Seq<FunctionView>)
    requires
        ranked(functions),
    ensures
        all_merged(functions, finalize::merged_functions(functions)),
        none_lost(functions, finalize::merged_functions(functions)),
    decreases functions.len(),
{
    if functions.len() > 0 {
        let rest = functions.drop_last();
        let x = functions.last();
        let n = rest.len() as int;
        assert(functions[n] == x);
        assert(rest.push(x) =~= functions);
        assert(ranked(rest)) by {
            assert forall|i: int, j: int| 0 <= i <= j < rest.len() implies ordering::at_most(
                #[trigger] rest[i],
                #[trigger] rest[j],
            ) by {
                assert(ordering::at_most(functions[i], functions[j]));
            }
        }
        lemma_merged(rest);
        let done = finalize::merged_functions(rest);
        assert(finalize::ascending(rest)) by {
            assert forall|i: int, j: int| 0 <= i < j < rest.len() implies !finalize::comes_before(
                (#[trigger] rest[j]).range,
                (#[trigger] rest[i]).range,
            ) by {
                assert(ordering::at_most(rest[i], rest[j]));
            }
        }
        assert(ordering::at_most(functions[n], functions[n]));
        assert forall|h: int| 0 <= h < n implies ordering::at_most(#[trigger] rest[h], x) by {
            assert(rest[h] == functions[h]);
            assert(ordering::at_most(functions[h], functions[n]));
        }
        lemma_step_merges(rest, x, done);
        lemma_step_loses_none(rest, x, done);
    }
}

proof fn lemma_still_merged(done: Seq<FunctionView>, x: FunctionView, function: FunctionView)
    requires
        is_merged_or_parent(done, function),
    ensures
        is_merged_or_parent(finalize::merge_step(done, x), function),
{
    let written = finalize::merge_step(done, x);
    let last = done.len() - 1;
    let k = choose|k: int|
        0 <= k < done.len() && (#[trigger] done[k]).range == function.range && (
        done[k].merged.contains(function) || FunctionView { merged: function.merged, ..done[k] }
            == function);
    if written[k] != done[k] {
        assert(k == last);
        assert(written[k] == (FunctionView { merged: done[k].merged.push(x), ..done[k] }));
        if done[k].merged.contains(function) {
            let m = choose|m: int| 0 <= m < done[k].merged.len() && done[k].merged[m] == function;
            assert(written[k].merged[m] == function);
        }
    }
    assert(written[k].range == function.range);
}

proof fn lemma_now_merged(done: Seq<FunctionView>, x: FunctionView)
    ensures
        is_merged_or_parent(finalize::merge_step(done, x), x),
{
    let written = finalize::merge_step(done, x);
    if done.len() > 0 && done.last().range == x.range {
        let last = done.len() - 1;
        let one = done[last];
        let after = written[last];
        if one.merged.len() > 0 && one.merged.last() == x {
            assert(after == one);
            assert(after.merged[one.merged.len() - 1] == x);
        } else if one.merged.len() == 0 && one == x {
            assert(after == one);
        } else {
            assert(after.merged[one.merged.len() as int] == x);
        }
        assert(written[last].range == x.range);
    } else {
        assert(written[done.len() as int] == x);
    }
}

proof fn lemma_at_most_of(rest: Seq<FunctionView>, parent: FunctionView, x: FunctionView)
    requires
        rest.contains(parent),
        forall|h: int| 0 <= h < rest.len() ==> ordering::at_most(#[trigger] rest[h], x),
    ensures
        ordering::at_most(parent, x),
{
    let p = choose|p: int| 0 <= p < rest.len() && rest[p] == parent;
    assert(ordering::at_most(rest[p], x));
}

proof fn lemma_merged_of_all(
    ordered: Seq<FunctionView>,
    given: Seq<FunctionView>,
    one: FunctionView,
)
    requires
        has_merged(ordered, one),
        forall|f: FunctionView| #[trigger] ordered.contains(f) <==> given.contains(f),
    ensures
        has_merged(given, one),
{
    let (parent, others) = choose|parent: FunctionView, others: Seq<FunctionView>| #[trigger]
        is_merger(ordered, one, parent, others);
    assert(given.contains(parent));
    assert forall|h: int|
        0 <= h < given.len() && (#[trigger] given[h]).range
            == parent.range implies ordering::at_most(parent, given[h]) by {
        assert(given.contains(given[h]));
        assert(ordered.contains(given[h]));
        let q = choose|q: int| 0 <= q < ordered.len() && ordered[q] == given[h];
        assert(ordering::at_most(parent, ordered[q]));
    }
    assert forall|e: int| 0 <= e < others.len() implies given.contains(#[trigger] others[e]) by {
        assert(ordered.contains(others[e]));
    }
    assert(is_merger(given, one, parent, others));
}

proof fn lemma_all_merged(
    ordered: Seq<FunctionView>,
    given: Seq<FunctionView>,
    written: Seq<FunctionView>,
)
    requires
        all_merged(ordered, written),
        none_lost(ordered, written),
        forall|f: FunctionView| #[trigger] ordered.contains(f) <==> given.contains(f),
    ensures
        all_merged(given, written),
        none_lost(given, written),
{
    assert forall|k: int| 0 <= k < written.len() implies has_merged(
        given,
        #[trigger] written[k],
    ) by {
        lemma_merged_of_all(ordered, given, written[k]);
    }
    assert forall|h: int| 0 <= h < given.len() implies is_merged_or_parent(
        written,
        #[trigger] given[h],
    ) by {
        assert(given.contains(given[h]));
        assert(ordered.contains(given[h]));
        let q = choose|q: int| 0 <= q < ordered.len() && ordered[q] == given[h];
        assert(is_merged_or_parent(written, ordered[q]));
    }
}

proof fn lemma_sorted_is_ordered(given: Seq<FunctionView>)
    ensures
        ranked(ordering::sorted(given)),
        finalize::ascending(ordering::sorted(given)),
        forall|f: FunctionView| #[trigger]
            ordering::sorted(given).contains(f) <==> given.contains(f),
{
    let ordered = ordering::sorted(given);
    ordering::law_sorted_functions(given);
    assert(finalize::ascending(ordered));
    assert forall|f: FunctionView| #[trigger] ordered.contains(f) <==> given.contains(f) by {
        if given.contains(f) {
            let h = choose|h: int| 0 <= h < given.len() && given[h] == f;
            assert(ordered.contains(given[h]));
        }
        if ordered.contains(f) {
            let q = choose|q: int| 0 <= q < ordered.len() && ordered[q] == f;
            assert(given.contains(ordered[q]));
        }
    }
    lemma_sorted_ranked(given);
}

/// Where functions that share a range are merged, one function is written for each
/// range: the lowest of those that have it, with the others merged into it by rank.
/// None is left out but one that repeats another.
pub proof fn law_functions_of_one_range_are_merged(
    functions: Seq<FunctionView>,
    ranges: Seq<AddressRange>,
)
    ensures
        ({
            let given = normalize::functions_compacted(functions);
            let written = finalize::finalized(
                functions,
                ranges,
                false,
                FunctionSetPolicy::MergeEqualRanges,
            );
            &&& finalize::strictly_ascending(written)
            &&& forall|k: int|
                0 <= k < written.len() ==> has_merged(given, #[trigger] written[k])
            &&& forall|h: int|
                0 <= h < given.len() ==> is_merged_or_parent(written, #[trigger] given[h])
        }),
{
    let given = normalize::functions_compacted(functions);
    let ordered = ordering::sorted(given);
    let written = finalize::merged_functions(ordered);
    lemma_sorted_is_ordered(given);
    lemma_merged(ordered);
    finalize::lemma_merged_ascend(ordered);
    lemma_all_merged(ordered, given, written);
}

/// Whether a range runs from an address to the end of the first of some ranges that
/// hold it, but no further than a function can.
pub open spec fn fills_range(range: AddressRange, start: u64, ranges: Seq<AddressRange>) -> bool {
    exists|r: int|
        0 <= r < ranges.len() && (#[trigger] ranges[r]).start <= start < ranges[r].end && (forall|
            q: int,
        |
            0 <= q < r ==> !((#[trigger] ranges[q]).start <= start < ranges[q].end))
            && range.start == start && range.end == (if ranges[r].end - start > u32::MAX {
            start + u32::MAX
        } else {
            ranges[r].end as int
        })
}

proof fn lemma_enclosing(ranges: Seq<AddressRange>, i: int, start: u64) -> (r: int)
    requires
        0 <= i <= ranges.len(),
    ensures
        i <= r <= ranges.len(),
        forall|q: int| i <= q < r ==> !((#[trigger] ranges[q]).start <= start < ranges[q].end),
        r < ranges.len() ==> ranges[r].start <= start < ranges[r].end && finalize::enclosing_end(
            ranges,
            i,
            start,
        ) == ranges[r].end,
        r == ranges.len() ==> finalize::enclosing_end(ranges, i, start) == start,
    decreases ranges.len() - i,
{
    if i == ranges.len() {
        i
    } else if ranges[i].spec_contains(start) {
        i
    } else {
        lemma_enclosing(ranges, i + 1, start)
    }
}

/// Repairing changes nothing but the range of the last function, and that only
/// where its size is unknown: it then runs to the end of the executable range that
/// it starts in. One that says nothing else is always repaired so.
pub proof fn law_only_the_last_range_is_repaired(
    functions: Seq<FunctionView>,
    ranges: Seq<AddressRange>,
    policy: FunctionSetPolicy,
)
    requires
        forall|i: int|
            0 <= i < functions.len() ==> (#[trigger] functions[i]).range.start
                <= functions[i].range.end,
    ensures
        ({
            let plain = finalize::finalized(functions, ranges, false, policy);
            let fixed = finalize::finalized(functions, ranges, true, policy);
            let last = plain.last();
            &&& fixed.len() == plain.len()
            &&& forall|i: int| 0 <= i < plain.len() - 1 ==> #[trigger] fixed[i] == plain[i]
            &&& plain.len() > 0 ==> {
                &&& same_records(fixed.last(), last) && fixed.last().name == last.name
                &&& last.range.start < last.range.end ==> fixed.last() == last
                &&& fixed.last().range == last.range || fills_range(
                    fixed.last().range,
                    last.range.start,
                    ranges,
                )
                &&& last.range.start == last.range.end && last.lines.len() == 0 && last.inline is None
                    && last.call_sites.len() == 0 && last.merged.len() == 0 && (exists|r: int|
                    0 <= r < ranges.len() && (#[trigger] ranges[r]).start <= last.range.start
                        < ranges[r].end) ==> fills_range(
                    fixed.last().range,
                    last.range.start,
                    ranges,
                )
            }
        }),
{
    let plain = finalize::finalized(functions, ranges, false, policy);
    let fixed = finalize::finalized(functions, ranges, true, policy);
    if plain.len() > 0 {
        let last = plain.last();
        let range = finalize::repaired_range(ranges, last.range.start);
        finalize::lemma_with_range(last, range);
        if functions.len() > 0 {
            finalize::lemma_chosen_range(functions, policy);
        } else {
            let given = finalize::prepared(functions, policy);
            ordering::law_sorted_functions(given);
            assert(ordering::sorted(given).len() == 0);
        }
        if last.range.spec_size() == 0 {
            let r = lemma_enclosing(ranges, 0, last.range.start);
            if r < ranges.len() {
                assert(fills_range(range, last.range.start, ranges));
            } else {
                assert(range.start == range.end);
            }
        }
    }
}

} // verus!
