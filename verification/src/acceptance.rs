//! Laws on which functions are accepted.
use vstd::prelude::*;
use crate::format::function::{MAX_INLINE_DEPTH, MAX_MERGED_DEPTH};
use crate::model::{AddressRange, FileIndex, FunctionView, InlineView, LineEntry};
use crate::validation;

verus! {

/// Whether there is a file with an index, where the files are known.
pub open spec fn is_there(index: FileIndex, file_count: Option<nat>) -> bool {
    file_count matches Some(count) ==> index.0 < count
}

/// Whether a row lies in the range of its function, or not before it where the size
/// is unknown, and is of a file that is there.
pub open spec fn acceptable_row(
    row: LineEntry,
    range: AddressRange,
    file_count: Option<nat>,
) -> bool {
    &&& range.start <= row.address
    &&& range.start == range.end || row.address < range.end
    &&& is_there(row.file, file_count)
}

/// Whether the ranges of an inline call are not empty, lie in ranges around it, and
/// stand one behind the other.
pub open spec fn acceptable_ranges(ranges: Seq<AddressRange>, parents: Seq<AddressRange>) -> bool {
    &&& forall|i: int|
        0 <= i < ranges.len() ==> (#[trigger] ranges[i]).start < ranges[i].end && lies_in(
            ranges[i],
            parents,
        )
    &&& forall|i: int, j: int|
        0 <= i < j < ranges.len() ==> (#[trigger] ranges[i]).end <= (#[trigger] ranges[j]).start
}

/// Whether a range lies in one of some ranges.
pub open spec fn lies_in(range: AddressRange, parents: Seq<AddressRange>) -> bool {
    exists|p: int|
        0 <= p < parents.len() && (#[trigger] parents[p]).start <= range.start && range.end
            <= parents[p].end
}

/// Whether an inline call is acceptable, with all that is nested in it.
pub open spec fn acceptable_inline(
    node: InlineView,
    parents: Seq<AddressRange>,
    file_count: Option<nat>,
    depth: nat,
) -> bool
    decreases node,
{
    &&& depth <= MAX_INLINE_DEPTH
    &&& node.ranges.len() > 0
    &&& acceptable_ranges(node.ranges, parents)
    &&& is_there(node.call_file, file_count)
    &&& forall|i: int|
        0 <= i < node.children.len() ==> acceptable_inline(
            #[trigger] node.children[i],
            node.ranges,
            file_count,
            depth + 1,
        )
}

/// Whether a function is acceptable: it has a name and a range that is not too long,
/// and what it says lies there. What is merged into it has its range and is
/// acceptable too.
pub open spec fn acceptable(
    function: FunctionView,
    file_count: Option<nat>,
    parent: Option<AddressRange>,
    depth: nat,
) -> bool
    decreases function,
{
    &&& depth <= MAX_MERGED_DEPTH
    &&& function.name.len() > 0
    &&& function.range.start <= function.range.end <= function.range.start + u32::MAX
    &&& parent matches Some(range) ==> function.range == range
    &&& forall|i: int|
        0 <= i < function.lines.len() ==> acceptable_row(
            #[trigger] function.lines[i],
            function.range,
            file_count,
        )
    &&& function.inline matches Some(node) ==> acceptable_inline(
        node,
        seq![function.range],
        file_count,
        0,
    )
    &&& function.range.start < function.range.end ==> forall|i: int|
        0 <= i < function.call_sites.len() ==> function.range.start + (
        #[trigger] function.call_sites[i]).return_offset < function.range.end
    &&& forall|i: int|
        0 <= i < function.merged.len() ==> acceptable(
            #[trigger] function.merged[i],
            file_count,
            Some(function.range),
            depth + 1,
        )
}

proof fn lemma_lines(
    lines: Seq<LineEntry>,
    i: int,
    range: AddressRange,
    file_count: Option<nat>,
)
    requires
        0 <= i <= lines.len(),
        range.start <= range.end,
    ensures
        validation::lines_error(lines, i, range, file_count) is None <==> forall|k: int|
            i <= k < lines.len() ==> acceptable_row(#[trigger] lines[k], range, file_count),
    decreases lines.len() - i,
{
    if i < lines.len() {
        lemma_lines(lines, i + 1, range, file_count);
        if validation::lines_error(lines, i, range, file_count) is Some {
            assert(!acceptable_row(lines[i], range, file_count) || validation::lines_error(
                lines,
                i + 1,
                range,
                file_count,
            ) is Some);
        }
    }
}

proof fn lemma_ranges(
    ranges: Seq<AddressRange>,
    i: int,
    parents: Seq<AddressRange>,
    previous: Option<u64>,
)
    requires
        0 <= i <= ranges.len(),
        previous matches Some(end) ==> i > 0 && end == ranges[i - 1].end,
        previous is None ==> i == 0,
    ensures
        validation::ranges_error(ranges, i, parents, previous) is None <==> {
            &&& forall|k: int|
                i <= k < ranges.len() ==> (#[trigger] ranges[k]).start < ranges[k].end && lies_in(
                    ranges[k],
                    parents,
                )
            &&& forall|k: int|
                i <= k < ranges.len() && k > 0 ==> ranges[k - 1].end <= (#[trigger] ranges[k]).start
        },
    decreases ranges.len() - i,
{
    if i < ranges.len() {
        lemma_ranges(ranges, i + 1, parents, Some(ranges[i].end));
        let own = ranges[i];
        assert(validation::range_fits(own, parents) <==> own.start < own.end && lies_in(
            own,
            parents,
        )) by {
            if lies_in(own, parents) && own.start < own.end {
                let p = choose|p: int|
                    0 <= p < parents.len() && (#[trigger] parents[p]).start <= own.start && own.end
                        <= parents[p].end;
                assert(parents[p].spec_contains_range(own));
            }
        }
    }
}

proof fn lemma_sorted(ranges: Seq<AddressRange>, parents: Seq<AddressRange>)
    ensures
        validation::ranges_error(ranges, 0, parents, None) is None <==> acceptable_ranges(
            ranges,
            parents,
        ),
{
    lemma_ranges(ranges, 0, parents, None);
    if validation::ranges_error(ranges, 0, parents, None) is None {
        assert forall|i: int, j: int| 0 <= i < j < ranges.len() implies (#[trigger] ranges[i]).end
            <= (#[trigger] ranges[j]).start by {
            lemma_ordered(ranges, i, j);
        }
    }
    if acceptable_ranges(ranges, parents) {
        assert forall|k: int| 0 <= k < ranges.len() && k > 0 implies ranges[k - 1].end <= (
        #[trigger] ranges[k]).start by {}
    }
}

proof fn lemma_ordered(ranges: Seq<AddressRange>, i: int, j: int)
    requires
        0 <= i < j < ranges.len(),
        forall|k: int| 0 <= k < ranges.len() ==> (#[trigger] ranges[k]).start < ranges[k].end,
        forall|k: int|
            0 <= k < ranges.len() && k > 0 ==> ranges[k - 1].end <= (#[trigger] ranges[k]).start,
    ensures
        ranges[i].end <= ranges[j].start,
    decreases j - i,
{
    assert(ranges[j - 1].end <= ranges[j].start);
    if i < j - 1 {
        lemma_ordered(ranges, i, j - 1);
        assert(ranges[j - 1].start < ranges[j - 1].end);
    }
}

proof fn lemma_inline(
    node: InlineView,
    parents: Seq<AddressRange>,
    file_count: Option<nat>,
    depth: nat,
)
    ensures
        validation::inline_error(node, parents, file_count, depth) is None <==> acceptable_inline(
            node,
            parents,
            file_count,
            depth,
        ),
    decreases node, 0int,
{
    lemma_sorted(node.ranges, parents);
    lemma_inlines(node.children, 0, node.ranges, file_count, depth + 1);
}

proof fn lemma_inlines(
    nodes: Seq<InlineView>,
    i: int,
    parents: Seq<AddressRange>,
    file_count: Option<nat>,
    depth: nat,
)
    requires
        0 <= i <= nodes.len(),
    ensures
        validation::inline_list_error(nodes, i, parents, file_count, depth) is None <==> forall|
            k: int,
        |
            i <= k < nodes.len() ==> acceptable_inline(
                #[trigger] nodes[k],
                parents,
                file_count,
                depth,
            ),
    decreases nodes, nodes.len() - i,
{
    if i < nodes.len() {
        lemma_inline(nodes[i], parents, file_count, depth);
        lemma_inlines(nodes, i + 1, parents, file_count, depth);
        if validation::inline_error(nodes[i], parents, file_count, depth) is Some {
            assert(!acceptable_inline(nodes[i], parents, file_count, depth));
        }
    }
}

/// A function is accepted exactly where it is acceptable.
pub proof fn law_acceptable_functions_are_accepted(
    function: FunctionView,
    file_count: Option<nat>,
    parent: Option<AddressRange>,
    depth: nat,
)
    ensures
        validation::function_error(function, file_count, parent, depth) is None <==> acceptable(
            function,
            file_count,
            parent,
            depth,
        ),
    decreases function, 0int,
{
    if function.range.start <= function.range.end {
        lemma_lines(function.lines, 0, function.range, file_count);
    }
    if let Some(node) = function.inline {
        lemma_inline(node, seq![function.range], file_count, 0);
    }
    if function.range.start < function.range.end {
        if validation::site_outside(function) {
            let i = choose|i: int|
                0 <= i < function.call_sites.len() && (
                #[trigger] function.call_sites[i]).return_offset >= function.range.spec_size();
            assert(function.range.start + function.call_sites[i].return_offset
                >= function.range.end);
        } else {
            assert forall|i: int| 0 <= i < function.call_sites.len() implies function.range.start
                + (#[trigger] function.call_sites[i]).return_offset < function.range.end by {
                assert(function.call_sites[i].return_offset < function.range.spec_size());
            }
        }
    }
    lemma_functions(function.merged, 0, file_count, Some(function.range), depth + 1);
}

proof fn lemma_functions(
    functions: Seq<FunctionView>,
    i: int,
    file_count: Option<nat>,
    parent: Option<AddressRange>,
    depth: nat,
)
    requires
        0 <= i <= functions.len(),
    ensures
        validation::functions_error(functions, i, file_count, parent, depth) is None <==> forall|
            k: int,
        |
            i <= k < functions.len() ==> acceptable(
                #[trigger] functions[k],
                file_count,
                parent,
                depth,
            ),
    decreases functions, functions.len() - i,
{
    if i < functions.len() {
        law_acceptable_functions_are_accepted(functions[i], file_count, parent, depth);
        lemma_functions(functions, i + 1, file_count, parent, depth);
        if validation::function_error(functions[i], file_count, parent, depth) is Some {
            assert(!acceptable(functions[i], file_count, parent, depth));
        }
    }
}

} // verus!
