//! Normalization of line rows.
use vstd::prelude::*;
use crate::model;
use crate::model::{Function, FunctionView, LineEntry};

verus! {

/// Whether a row says nothing that the row before it does not say.
pub open spec fn repeats(previous: LineEntry, row: LineEntry) -> bool {
    previous.file == row.file && previous.line == row.line
}

/// The rows without those that repeat the file and line of the row before.
pub open spec fn compacted(lines: Seq<LineEntry>) -> Seq<LineEntry>
    decreases lines.len(),
{
    if lines.len() == 0 {
        lines
    } else {
        let rest = compacted(lines.drop_last());
        if rest.len() > 0 && repeats(rest.last(), lines.last()) {
            rest
        } else {
            rest.push(lines.last())
        }
    }
}

/// A function whose rows, and those of its merged functions, are compacted.
pub open spec fn function_compacted(function: FunctionView) -> FunctionView
    decreases function,
{
    FunctionView {
        lines: compacted(function.lines),
        merged: Seq::new(
            function.merged.len(),
            |i: int|
                if 0 <= i < function.merged.len() {
                    function_compacted(function.merged[i])
                } else {
                    arbitrary()
                },
        ),
        ..function
    }
}

/// The functions of a list with their rows compacted.
pub open spec fn functions_compacted(functions: Seq<FunctionView>) -> Seq<FunctionView> {
    Seq::new(functions.len(), |i: int| function_compacted(functions[i]))
}

/// A compacted function, one level at a time.
pub proof fn lemma_function_compacted(function: FunctionView)
    ensures
        function_compacted(function) == (FunctionView {
            lines: compacted(function.lines),
            merged: functions_compacted(function.merged),
            ..function
        }),
{
    assert(function_compacted(function).merged =~= functions_compacted(function.merged));
}

proof fn lemma_compacted(lines: Seq<LineEntry>)
    ensures
        compacted(lines).len() <= lines.len(),
        lines.len() > 0 ==> compacted(lines).len() > 0 && compacted(lines)[0] == lines[0]
            && repeats(compacted(lines).last(), lines.last()),
        forall|i: int|
            0 < i < compacted(lines).len() ==> !repeats(
                #[trigger] compacted(lines)[i - 1],
                compacted(lines)[i],
            ),
        forall|i: int| 0 <= i < compacted(lines).len() ==> lines.contains(compacted(lines)[i]),
    decreases lines.len(),
{
    if lines.len() > 0 {
        let rest = lines.drop_last();
        lemma_compacted(rest);
        assert(lines.contains(lines.last()));
        assert forall|i: int| 0 <= i < compacted(lines).len() implies lines.contains(
            compacted(lines)[i],
        ) by {
            if i < compacted(rest).len() {
                assert(rest.contains(compacted(rest)[i]));
                let k = choose|k: int| 0 <= k < rest.len() && rest[k] == compacted(rest)[i];
                assert(lines[k] == compacted(lines)[i]);
            }
        }
    }
}

/// Rows of which no two neighbours say the same are compact.
pub proof fn lemma_nothing_to_compact(lines: Seq<LineEntry>)
    requires
        forall|i: int| 0 < i < lines.len() ==> !repeats(#[trigger] lines[i - 1], lines[i]),
    ensures
        compacted(lines) == lines,
    decreases lines.len(),
{
    if lines.len() > 0 {
        let rest = lines.drop_last();
        assert forall|i: int| 0 < i < rest.len() implies !repeats(
            #[trigger] rest[i - 1],
            rest[i],
        ) by {
            assert(!repeats(lines[i - 1], lines[i]));
        }
        lemma_nothing_to_compact(rest);
        if rest.len() > 0 {
            assert(!repeats(lines[lines.len() - 2], lines[lines.len() - 1]));
        }
        assert(rest.push(lines.last()) =~= lines);
    }
}

/// Whether rows are what is left of others: row `k` is that at `starts[k]`, and
/// what stands from there up to the next repeats its file and line.
pub open spec fn stands_for(kept: Seq<LineEntry>, lines: Seq<LineEntry>, starts: Seq<int>) -> bool {
    &&& starts.len() == kept.len()
    &&& lines.len() > 0 ==> starts.len() > 0 && starts[0] == 0
    &&& forall|k: int|
        0 <= k < kept.len() ==> 0 <= (#[trigger] starts[k]) < lines.len() && kept[k]
            == lines[starts[k]]
    &&& forall|j: int, k: int|
        0 <= j < k < starts.len() ==> (#[trigger] starts[j]) < (#[trigger] starts[k])
    &&& forall|k: int, i: int|
        #![trigger kept[k], lines[i]]
        0 <= k < kept.len() && starts[k] <= i < lines.len() && (k + 1 < starts.len() ==> i
            < starts[k + 1]) ==> lines[i].file == kept[k].file && lines[i].line == kept[k].line
}

/// Where the rows that compacting leaves stood.
pub proof fn lemma_compacted_starts(lines: Seq<LineEntry>) -> (starts: Seq<int>)
    ensures
        stands_for(compacted(lines), lines, starts),
    decreases lines.len(),
{
    if lines.len() == 0 {
        Seq::empty()
    } else {
        let head = lines.drop_last();
        let rest = compacted(head);
        let before = lemma_compacted_starts(head);
        let kept = compacted(lines);
        let n = lines.len() - 1;
        let starts = if rest.len() > 0 && repeats(rest.last(), lines.last()) {
            before
        } else {
            before.push(n)
        };
        assert forall|k: int, i: int|
            #![trigger kept[k], lines[i]]
            0 <= k < kept.len() && starts[k] <= i < lines.len() && (k + 1 < starts.len() ==> i
                < starts[k + 1]) implies lines[i].file == kept[k].file && lines[i].line
            == kept[k].line by {
            if i < n {
                assert(head[i] == lines[i]);
                assert(k < rest.len());
                assert(rest[k] == kept[k]);
            } else if k < rest.len() - 1 {
                assert(starts[k + 1] <= n);
            }
        }
        starts
    }
}

/// Compacting rows keeps the first one, leaves no two neighbours with the same
/// file and line, adds no row, and changes nothing when done again. What is left
/// out repeats the file and line of the last row before it that is kept.
pub proof fn law_compaction(lines: Seq<LineEntry>)
    ensures
        exists|starts: Seq<int>| stands_for(compacted(lines), lines, starts),
        lines.len() > 0 ==> compacted(lines).len() > 0 && compacted(lines)[0] == lines[0],
        forall|i: int|
            0 < i < compacted(lines).len() ==> !repeats(
                #[trigger] compacted(lines)[i - 1],
                compacted(lines)[i],
            ),
        forall|i: int| 0 <= i < compacted(lines).len() ==> lines.contains(compacted(lines)[i]),
        compacted(compacted(lines)) == compacted(lines),
{
    lemma_compacted(lines);
    let starts = lemma_compacted_starts(lines);
    assert(stands_for(compacted(lines), lines, starts));
    lemma_nothing_to_compact(compacted(lines));
}

/// Removes the rows that repeat the file and line of the row before.
pub fn compact_line_rows(lines: &mut Vec<LineEntry>)
    ensures
        final(lines)@ == compacted(old(lines)@),
{
    let ghost rows = lines@;
    let count: usize = lines.len();
    let mut kept: Vec<LineEntry> = Vec::new();
    let mut i: usize = 0;
    assert(rows.subrange(0, 0) =~= Seq::<LineEntry>::empty());
    assert(kept@ =~= compacted(rows.subrange(0, 0)));
    while i < count
        invariant
            i <= count,
            count == rows.len(),
            lines@ == rows,
            kept@ == compacted(rows.subrange(0, i as int)),
        decreases count - i,
    {
        let row: LineEntry = lines[i];
        assert(rows.subrange(0, i + 1).drop_last() =~= rows.subrange(0, i as int));
        let last: usize = kept.len();
        if last == 0 || kept[last - 1].file != row.file || kept[last - 1].line != row.line {
            kept.push(row);
        }
        i = i + 1;
    }
    assert(rows.subrange(0, count as int) =~= rows);
    *lines = kept;
}

/// Compacts the rows of a function and of its merged functions.
pub fn compact_function_lines(function: &mut Function)
    ensures
        final(function)@ == function_compacted(old(function)@),
    decreases *old(function),
{
    let ghost before = *function;
    proof {
        model::lemma_function_view(before);
        lemma_function_compacted(before@);
    }
    compact_line_rows(&mut function.lines);
    let mut merged: Vec<Function> = Vec::new();
    std::mem::swap(&mut merged, &mut function.merged);
    let ghost views = model::function_views(merged@);
    let count: usize = merged.len();
    let mut i: usize = 0;
    while i < count
        invariant
            i <= count,
            count == merged@.len(),
            before == *old(function),
            views == model::function_views(before.merged@),
            merged@.len() == before.merged@.len(),
            forall|k: int| i <= k < count ==> merged@[k] == before.merged@[k],
            forall|k: int|
                0 <= k < i ==> (#[trigger] merged@[k])@ == function_compacted(views[k]),
        decreases count - i,
    {
        assert(decreases_to!(before => before.merged@[i as int]));
        compact_function_lines(&mut merged[i]);
        i = i + 1;
    }
    proof {
        assert(model::function_views(merged@) =~= functions_compacted(views));
    }
    function.merged = merged;
    proof {
        model::lemma_function_view(*function);
    }
}

/// Whether no row of a function repeats the file and line of the row before, nor one of
/// the functions that are merged into it.
pub open spec fn is_compact(function: FunctionView) -> bool
    decreases function,
{
    &&& forall|i: int|
        0 < i < function.lines.len() ==> !repeats(
            #[trigger] function.lines[i - 1],
            function.lines[i],
        )
    &&& forall|m: int|
        0 <= m < function.merged.len() ==> is_compact(#[trigger] function.merged[m])
}

/// Compacting a function leaves no row in it, nor in those that are merged into it, that
/// repeats the one before. One that has none is kept as it is.
pub proof fn law_functions_become_compact(function: FunctionView)
    ensures
        is_compact(function_compacted(function)),
        function_compacted(function).merged.len() == function.merged.len(),
        is_compact(function) ==> function_compacted(function) == function,
    decreases function,
{
    let after = function_compacted(function);
    lemma_compacted(function.lines);
    assert forall|m: int| 0 <= m < after.merged.len() implies is_compact(
        #[trigger] after.merged[m],
    ) by {
        law_functions_become_compact(function.merged[m]);
    }
    if is_compact(function) {
        lemma_nothing_to_compact(function.lines);
        assert forall|m: int| 0 <= m < after.merged.len() implies #[trigger] after.merged[m]
            == function.merged[m] by {
            assert(is_compact(function.merged[m]));
            law_functions_become_compact(function.merged[m]);
        }
        assert(after.merged =~= function.merged);
    }
}

} // verus!
