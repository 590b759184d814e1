//! The order in which functions are added does not matter.
use vstd::prelude::*;
use vstd::relations::{sorted_by, total_ordering};
use vstd::seq_lib::lemma_sorted_unique;
use crate::builder;
use crate::builder::BuilderView;
use crate::model::FunctionView;
use crate::normalize;
use crate::sort;
use crate::writer::finalize;
use crate::writer::finalize::FunctionSetPolicy;
use crate::writer::ordering;

verus! {

/// Whether two lists hold the same functions, each as often, in any order.
pub open spec fn same_functions(a: Seq<FunctionView>, b: Seq<FunctionView>) -> bool {
    a.to_multiset() == b.to_multiset()
}

/// Sorting keeps each function.
pub proof fn lemma_sorted_keeps(functions: Seq<FunctionView>)
    ensures
        same_functions(ordering::sorted(functions), functions),
{
    let le = ordering::ranking_of(functions);
    let n = functions.len();
    ordering::law_functions_are_ranked(functions);
    sort::lemma_order_exists(le, n);
    sort::lemma_arranged(functions, sort::order_of(le, n), le);
    assert(ordering::sorted(functions) =~= sort::rearranged(functions, sort::order_of(le, n)));
}

/// Changing each function of the same functions gives the same functions.
proof fn lemma_changed(
    a: Seq<FunctionView>,
    b: Seq<FunctionView>,
    change: spec_fn(FunctionView) -> FunctionView,
)
    requires
        same_functions(a, b),
    ensures
        same_functions(
            Seq::new(a.len(), |i: int| change(a[i])),
            Seq::new(b.len(), |i: int| change(b[i])),
        ),
    decreases a.len(),
{
    broadcast use vstd::seq_lib::group_to_multiset_ensures;

    let x = Seq::new(a.len(), |i: int| change(a[i]));
    let y = Seq::new(b.len(), |i: int| change(b[i]));
    assert(a.to_multiset().len() == a.len() && b.to_multiset().len() == b.len());
    if a.len() == 0 {
        assert(x =~= y);
    } else {
        let last = a.last();
        assert(a.contains(last));
        assert(b.to_multiset().count(last) > 0);
        assert(b.contains(last));
        let at = choose|at: int| 0 <= at < b.len() && b[at] == last;
        assert(a.drop_last() =~= a.remove(a.len() - 1));
        assert(a.drop_last().to_multiset() =~= b.remove(at).to_multiset());
        lemma_changed(a.drop_last(), b.remove(at), change);
        let p = Seq::new((a.len() - 1) as nat, |i: int| change(a.drop_last()[i]));
        let q = Seq::new((b.len() - 1) as nat, |i: int| change(b.remove(at)[i]));
        assert(x =~= p.push(change(last)));
        assert(y =~= q.insert(at, change(last)));
        vstd::seq_lib::to_multiset_insert(q, at, change(last));
        vstd::seq_lib::to_multiset_build(p, change(last));
    }
}

proof fn lemma_prepared(
    a: Seq<FunctionView>,
    b: Seq<FunctionView>,
    policy: FunctionSetPolicy,
)
    requires
        same_functions(a, b),
    ensures
        same_functions(finalize::prepared(a, policy), finalize::prepared(b, policy)),
{
    let compact = |f: FunctionView| normalize::function_compacted(f);
    let bare = |f: FunctionView|
        FunctionView { merged: Seq::empty(), ..normalize::function_compacted(f) };
    match policy {
        FunctionSetPolicy::MergeEqualRanges => {
            lemma_changed(a, b, compact);
            assert(finalize::prepared(a, policy) =~= Seq::new(a.len(), |i: int| compact(a[i])));
            assert(finalize::prepared(b, policy) =~= Seq::new(b.len(), |i: int| compact(b[i])));
        },
        FunctionSetPolicy::Deduplicate => {
            lemma_changed(a, b, bare);
            assert(finalize::prepared(a, policy) =~= Seq::new(a.len(), |i: int| bare(a[i])));
            assert(finalize::prepared(b, policy) =~= Seq::new(b.len(), |i: int| bare(b[i])));
        },
        FunctionSetPolicy::Preserve => {},
    }
}

/// Sorting the same functions gives the same list.
proof fn lemma_sorted_alike(a: Seq<FunctionView>, b: Seq<FunctionView>)
    requires
        same_functions(a, b),
    ensures
        ordering::sorted(a) == ordering::sorted(b),
{
    let le = |x: FunctionView, y: FunctionView| ordering::at_most(x, y);
    lemma_sorted_keeps(a);
    lemma_sorted_keeps(b);
    lemma_sorted_ascends(a);
    lemma_sorted_ascends(b);
    assert(total_ordering(le)) by {
        assert forall|x: FunctionView, y: FunctionView| #[trigger] le(x, y) || #[trigger] le(
            y,
            x,
        ) by {
            lemma_two(x, y);
        }
        assert forall|x: FunctionView| #[trigger] le(x, x) by {
            lemma_two(x, x);
        }
        assert forall|x: FunctionView, y: FunctionView| #[trigger] le(x, y) && #[trigger] le(
            y,
            x,
        ) implies x == y by {
            ordering::law_functions_are_ranked(seq![x, y]);
        }
        assert forall|x: FunctionView, y: FunctionView, z: FunctionView| #[trigger]
            le(x, y) && #[trigger] le(y, z) implies le(x, z) by {
            let three = seq![x, y, z];
            ordering::law_functions_are_ranked(three);
            let ranks = ordering::ranking_of(three);
            assert(ranks(0, 1) && ranks(1, 2));
            assert(ranks(0, 2));
        }
    }
    lemma_sorted_unique(ordering::sorted(a), ordering::sorted(b), le);
}

proof fn lemma_two(x: FunctionView, y: FunctionView)
    ensures
        ordering::at_most(x, y) || ordering::at_most(y, x),
{
    let two = seq![x, y];
    ordering::law_functions_are_ranked(two);
    let ranks = ordering::ranking_of(two);
    assert(ranks(0, 1) || ranks(1, 0));
}

proof fn lemma_sorted_ascends(functions: Seq<FunctionView>)
    ensures
        sorted_by(
            ordering::sorted(functions),
            |x: FunctionView, y: FunctionView| ordering::at_most(x, y),
        ),
{
    let le = ordering::ranking_of(functions);
    let n = functions.len();
    ordering::law_functions_are_ranked(functions);
    sort::lemma_order_exists(le, n);
    let order = sort::order_of(le, n);
    let result = ordering::sorted(functions);
    assert forall|i: int, j: int| 0 <= i < j < result.len() implies ordering::at_most(
        #[trigger] result[i],
        #[trigger] result[j],
    ) by {
        assert(sort::before(le, order[i], order[j]));
        assert(le(order[i], order[j]));
    }
}

/// The order in which functions are added does not matter: two builders with the
/// same settings, the same files and the same functions in any order give the
/// same file.
pub proof fn law_insertion_order_does_not_matter(a: BuilderView, b: BuilderView)
    requires
        a.options == b.options,
        a.policy == b.policy,
        a.files == b.files,
        same_functions(a.functions, b.functions),
    ensures
        finalize::finalized(
            a.functions,
            a.options.executable_ranges,
            a.options.repair_zero_sized_functions,
            a.policy,
        ) == finalize::finalized(
            b.functions,
            b.options.executable_ranges,
            b.options.repair_zero_sized_functions,
            b.policy,
        ),
        builder::built(a) is Ok && builder::built(b) is Ok ==> builder::built(a)
            == builder::built(b),
{
    lemma_prepared(a.functions, b.functions, a.policy);
    lemma_sorted_alike(
        finalize::prepared(a.functions, a.policy),
        finalize::prepared(b.functions, b.policy),
    );
}

} // verus!
