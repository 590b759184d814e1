//! Functions that finalization leaves as they are.
use vstd::prelude::*;
use crate::model::{AddressRange, FunctionView};
use crate::normalize;
use crate::sort;
use crate::writer::finalize;
use crate::writer::finalize::FunctionSetPolicy;
use crate::writer::ordering;

verus! {

/// Whether the rows of a function have nothing left to compact, and nothing is
/// merged into it.
pub open spec fn is_compact(function: FunctionView) -> bool {
    normalize::function_compacted(function) == function && function.merged.len() == 0
}

/// Whether the rows of functions have nothing left to compact, and nothing is
/// merged into them.
pub open spec fn all_compact(functions: Seq<FunctionView>) -> bool {
    forall|i: int| 0 <= i < functions.len() ==> is_compact(#[trigger] functions[i])
}

/// Whether a function is to be kept behind another: their ranges differ, and
/// it does not cover one of unknown size.
pub open spec fn stands_behind(previous: AddressRange, range: AddressRange) -> bool {
    previous != range && !(previous.spec_size() == 0 && range.spec_contains(previous.start))
}

/// Whether deduplication has nothing left to do.
pub open spec fn all_stand(functions: Seq<FunctionView>) -> bool {
    forall|i: int|
        0 < i < functions.len() ==> stands_behind(
            functions[i - 1].range,
            (#[trigger] functions[i]).range,
        )
}

/// Whether functions are in order, rows are compact, and no two functions are to
/// be made one.
pub open spec fn settled(functions: Seq<FunctionView>) -> bool {
    all_compact(functions) && finalize::strictly_ascending(functions) && all_stand(functions)
}

proof fn lemma_compacted_again(function: FunctionView)
    ensures
        normalize::function_compacted(normalize::function_compacted(function))
            == normalize::function_compacted(function),
    decreases function,
{
    let once = normalize::function_compacted(function);
    normalize::law_compaction(function.lines);
    normalize::lemma_function_compacted(function);
    normalize::lemma_function_compacted(once);
    assert(normalize::functions_compacted(once.merged) =~= once.merged) by {
        assert forall|i: int| 0 <= i < once.merged.len() implies #[trigger]
            normalize::function_compacted(once.merged[i]) == once.merged[i] by {
            lemma_compacted_again(function.merged[i]);
            assert(once.merged[i] == normalize::function_compacted(function.merged[i]));
        }
    }
}

proof fn lemma_sorted_stays(functions: Seq<FunctionView>)
    requires
        finalize::strictly_ascending(functions),
    ensures
        ordering::sorted(functions) == functions,
{
    let le = ordering::ranking_of(functions);
    let n = functions.len();
    let order = Seq::new(n, |i: int| i);
    assert(sort::is_order(le, n, order)) by {
        assert forall|a: int, b: int| 0 <= a < b < order.len() implies sort::before(
            le,
            #[trigger] order[a],
            #[trigger] order[b],
        ) by {
            assert(finalize::comes_before(functions[a].range, functions[b].range));
        }
        assert forall|x: int| 0 <= x < n implies #[trigger] order.contains(x) by {
            assert(order[x] == x);
        }
    }
    sort::lemma_order_unique(le, n, order);
    assert(ordering::sorted(functions) =~= functions);
}

proof fn lemma_deduplicated_stays(functions: Seq<FunctionView>)
    requires
        all_stand(functions),
    ensures
        finalize::deduplicated(functions) == functions,
    decreases functions.len(),
{
    if functions.len() > 0 {
        let rest = functions.drop_last();
        assert forall|i: int| 0 < i < rest.len() implies stands_behind(
            rest[i - 1].range,
            (#[trigger] rest[i]).range,
        ) by {
            assert(stands_behind(functions[i - 1].range, functions[i].range));
        }
        lemma_deduplicated_stays(rest);
        if rest.len() > 0 {
            let last = functions.len() - 1;
            assert(stands_behind(functions[last - 1].range, functions[last].range));
        }
        assert(rest.push(functions.last()) =~= functions);
    }
}

/// Finalization leaves settled functions as they are.
pub proof fn lemma_settled_stays(functions: Seq<FunctionView>, ranges: Seq<AddressRange>)
    requires
        settled(functions),
    ensures
        finalize::finalized(functions, ranges, false, FunctionSetPolicy::Deduplicate)
            == functions,
{
    let given = finalize::prepared(functions, FunctionSetPolicy::Deduplicate);
    assert(given =~= functions) by {
        assert forall|i: int| 0 <= i < functions.len() implies given[i] == functions[i] by {
            assert(is_compact(functions[i]));
            assert(functions[i].merged =~= Seq::<FunctionView>::empty());
        }
    }
    lemma_sorted_stays(functions);
    lemma_deduplicated_stays(functions);
}

proof fn lemma_deduplicated_stands(functions: Seq<FunctionView>)
    requires
        finalize::ascending(functions),
        forall|i: int|
            0 <= i < functions.len() ==> (#[trigger] functions[i]).range.start
                <= functions[i].range.end,
        all_compact(functions),
    ensures
        all_stand(finalize::deduplicated(functions)),
        all_compact(finalize::deduplicated(functions)),
        finalize::strictly_ascending(finalize::deduplicated(functions)),
        forall|i: int|
            0 <= i < finalize::deduplicated(functions).len() ==> (
            #[trigger] finalize::deduplicated(functions)[i]).range.start
                <= finalize::deduplicated(functions)[i].range.end,
        functions.len() > 0 ==> finalize::deduplicated(functions).len() > 0
            && finalize::deduplicated(functions).last().range == functions.last().range,
    decreases functions.len(),
{
    if functions.len() > 0 {
        let rest = functions.drop_last();
        let function = functions.last();
        assert(finalize::ascending(rest)) by {
            assert forall|i: int, j: int| 0 <= i < j < rest.len() implies !finalize::comes_before(
                (#[trigger] rest[j]).range,
                (#[trigger] rest[i]).range,
            ) by {
                assert(!finalize::comes_before(functions[j].range, functions[i].range));
            }
        }
        assert forall|i: int| 0 <= i < rest.len() implies (#[trigger] rest[i]).range.start
            <= rest[i].range.end by {
            assert(functions[i].range.start <= functions[i].range.end);
        }
        assert(all_compact(rest)) by {
            assert forall|i: int| 0 <= i < rest.len() implies is_compact(#[trigger] rest[i]) by {
                assert(is_compact(functions[i]));
            }
        }
        lemma_deduplicated_stands(rest);
        let done = finalize::deduplicated(rest);
        let result = finalize::deduplicated(functions);
        let last = functions.len() - 1;
        assert(functions[last] == function);
        assert(is_compact(functions[last]));
        if rest.len() > 0 {
            assert(!finalize::comes_before(functions[last].range, functions[last - 1].range));
            assert(done.last() == done[done.len() - 1]);
        }
        lemma_kept_compact(done, function);
        assert forall|i: int| 0 < i < result.len() implies stands_behind(
            result[i - 1].range,
            (#[trigger] result[i]).range,
        ) by {
            if i < done.len() {
                assert(stands_behind(done[i - 1].range, done[i].range));
                assert(finalize::comes_before(done[i - 1].range, done[i].range));
            }
        }
        assert forall|i: int, j: int| 0 <= i < j < result.len() implies finalize::comes_before(
            (#[trigger] result[i]).range,
            (#[trigger] result[j]).range,
        ) by {
            if j < done.len() {
                assert(finalize::comes_before(done[i].range, done[j].range));
            } else if i < done.len() - 1 {
                assert(finalize::comes_before(done[i].range, done[done.len() - 1].range));
            }
        }
    }
}

/// The function that is kept of two compact ones is compact.
proof fn lemma_kept_compact(done: Seq<FunctionView>, function: FunctionView)
    requires
        all_compact(done),
        is_compact(function),
    ensures
        all_compact(finalize::deduplicate_step(done, function)),
{
    let result = finalize::deduplicate_step(done, function);
    normalize::lemma_function_compacted(function);
    assert forall|i: int| 0 <= i < result.len() implies is_compact(#[trigger] result[i]) by {
        if i < done.len() {
            assert(is_compact(done[i]));
        }
        if i == result.len() - 1 && done.len() > 0 {
            let renamed = FunctionView { name: done.last().name, ..function };
            normalize::lemma_function_compacted(renamed);
            assert(normalize::function_compacted(renamed) == renamed);
        }
    }
}

/// Functions that were finalized by deduplication without repair are settled,
/// so finalizing them again changes nothing.
pub proof fn law_finalizing_again_changes_nothing(
    functions: Seq<FunctionView>,
    ranges: Seq<AddressRange>,
)
    requires
        forall|i: int|
            0 <= i < functions.len() ==> (#[trigger] functions[i]).range.start
                <= functions[i].range.end,
    ensures
        ({
            let once = finalize::finalized(
                functions,
                ranges,
                false,
                FunctionSetPolicy::Deduplicate,
            );
            &&& settled(once)
            &&& finalize::finalized(once, ranges, false, FunctionSetPolicy::Deduplicate) == once
        }),
{
    let given = finalize::prepared(functions, FunctionSetPolicy::Deduplicate);
    let ordered = ordering::sorted(given);
    ordering::law_sorted_functions(given);
    assert(finalize::ascending(ordered));
    assert forall|i: int| 0 <= i < ordered.len() implies {
        &&& is_compact(#[trigger] ordered[i])
        &&& ordered[i].range.start <= ordered[i].range.end
    } by {
        assert(given.contains(ordered[i]));
        let k = choose|k: int| 0 <= k < given.len() && given[k] == ordered[i];
        lemma_compacted_again(functions[k]);
        let once = normalize::function_compacted(functions[k]);
        normalize::lemma_function_compacted(functions[k]);
        normalize::lemma_function_compacted(once);
        normalize::lemma_function_compacted(ordered[i]);
        assert(normalize::functions_compacted(ordered[i].merged) =~= ordered[i].merged);
        assert(functions[k].range.start <= functions[k].range.end);
    }
    lemma_deduplicated_stands(ordered);
    let once = finalize::finalized(functions, ranges, false, FunctionSetPolicy::Deduplicate);
    assert(once == finalize::deduplicated(ordered));
    lemma_settled_stays(once, ranges);
}

} // verus!
