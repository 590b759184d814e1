//! Stable sorting by a ranking of indices.
use vstd::prelude::*;

verus! {

/// Whether `le` ranks the indices below `n`: any two compare, and comparisons
/// chain.
pub open spec fn total_preorder(le: spec_fn(int, int) -> bool, n: nat) -> bool {
    &&& forall|i: int, j: int| 0 <= i < n && 0 <= j < n ==> #[trigger] le(i, j) || le(j, i)
    &&& forall|i: int, j: int, k: int|
        0 <= i < n && 0 <= j < n && 0 <= k < n && #[trigger] le(i, j) && #[trigger] le(j, k)
            ==> le(i, k)
}

/// Whether index `i` comes before index `j`: by rank, and by index where they
/// rank equal.
pub open spec fn before(le: spec_fn(int, int) -> bool, i: int, j: int) -> bool {
    le(i, j) && (i < j || !le(j, i))
}

/// Whether every index of `order` comes before the ones behind it.
pub open spec fn ascending(le: spec_fn(int, int) -> bool, order: Seq<int>) -> bool {
    forall|a: int, b: int|
        0 <= a < b < order.len() ==> before(le, #[trigger] order[a], #[trigger] order[b])
}

/// Whether `order` holds the indices from `low` up to `high`.
pub open spec fn holds_range(order: Seq<int>, low: int, high: int) -> bool {
    &&& order.len() == high - low
    &&& forall|a: int| 0 <= a < order.len() ==> low <= #[trigger] order[a] < high
    &&& forall|x: int| low <= x < high ==> #[trigger] order.contains(x)
}

/// Whether `order` lists the indices below `n` by rank, and those that rank
/// equal as they stand.
pub open spec fn is_order(le: spec_fn(int, int) -> bool, n: nat, order: Seq<int>) -> bool {
    ascending(le, order) && holds_range(order, 0, n as int)
}

/// The indices below `n` by rank, and those that rank equal as they stand.
pub open spec fn order_of(le: spec_fn(int, int) -> bool, n: nat) -> Seq<int> {
    choose|order: Seq<int>| is_order(le, n, order)
}

/// The indices as integers.
pub open spec fn indices(order: Seq<usize>) -> Seq<int> {
    Seq::new(order.len(), |a: int| order[a] as int)
}

proof fn lemma_insert(le: spec_fn(int, int) -> bool, n: nat, order: Seq<int>, at: int) -> (grown: Seq<
    int,
>)
    requires
        total_preorder(le, n + 1),
        is_order(le, n, order),
        0 <= at <= n,
        forall|a: int| at <= a < n ==> before(le, n as int, #[trigger] order[a]),
    ensures
        is_order(le, n + 1, grown),
    decreases at,
{
    if at > 0 && before(le, n as int, order[at - 1]) {
        lemma_insert(le, n, order, at - 1)
    } else {
        let grown = order.insert(at, n as int);
        assert forall|a: int, b: int| 0 <= a < b < grown.len() implies before(
            le,
            #[trigger] grown[a],
            #[trigger] grown[b],
        ) by {
            if b == at {
                assert(before(le, order[at - 1], n as int)) by {
                    assert(le(order[at - 1], n as int) || le(n as int, order[at - 1]));
                }
                if a < at - 1 {
                    assert(before(le, order[a], order[at - 1]));
                    assert(le(order[a], order[at - 1]) && le(order[at - 1], n as int));
                }
            } else if a == at {
                assert(grown[b] == order[b - 1]);
            } else if a < at && b > at {
                assert(grown[b] == order[b - 1] && grown[a] == order[a]);
            } else if a > at {
                assert(grown[b] == order[b - 1] && grown[a] == order[a - 1]);
            } else {
                assert(grown[b] == order[b] && grown[a] == order[a]);
            }
        }
        assert forall|x: int| 0 <= x < n + 1 implies #[trigger] grown.contains(x) by {
            if x == n {
                assert(grown[at] == x);
            } else {
                assert(order.contains(x));
                let a = choose|a: int| 0 <= a < order.len() && order[a] == x;
                if a < at {
                    assert(grown[a] == x);
                } else {
                    assert(grown[a + 1] == x);
                }
            }
        }
        grown
    }
}

/// There is an order by every ranking.
pub proof fn lemma_order_exists(le: spec_fn(int, int) -> bool, n: nat)
    requires
        total_preorder(le, n),
    ensures
        is_order(le, n, order_of(le, n)),
    decreases n,
{
    if n == 0 {
        assert(is_order(le, n, Seq::empty()));
    } else {
        let m = (n - 1) as nat;
        lemma_order_exists(le, m);
        let grown = lemma_insert(le, m, order_of(le, m), m as int);
        assert(is_order(le, n, grown));
    }
}

proof fn lemma_same_prefix(
    le: spec_fn(int, int) -> bool,
    n: nat,
    a: Seq<int>,
    b: Seq<int>,
    k: int,
)
    requires
        is_order(le, n, a),
        is_order(le, n, b),
        0 <= k <= n,
    ensures
        forall|i: int| 0 <= i < k ==> a[i] == b[i],
    decreases k,
{
    if k > 0 {
        lemma_same_prefix(le, n, a, b, k - 1);
        let x = a[k - 1];
        let y = b[k - 1];
        if x != y {
            assert(b.contains(x) && a.contains(y));
            let p = choose|p: int| 0 <= p < b.len() && b[p] == x;
            let q = choose|q: int| 0 <= q < a.len() && a[q] == y;
            if p < k - 1 {
                assert(a[p] == x);
                assert(before(le, a[p], a[k - 1]));
            }
            if q < k - 1 {
                assert(b[q] == y);
                assert(before(le, b[q], b[k - 1]));
            }
            assert(before(le, b[k - 1], b[p]));
            assert(before(le, a[k - 1], a[q]));
        }
    }
}

/// There is only one order by a ranking.
pub proof fn lemma_order_unique(le: spec_fn(int, int) -> bool, n: nat, order: Seq<int>)
    requires
        is_order(le, n, order),
    ensures
        order == order_of(le, n),
{
    let other = order_of(le, n);
    assert(is_order(le, n, other));
    lemma_same_prefix(le, n, order, other, n as int);
    assert(order =~= other);
}

/// Items that are ranked by their index.
pub trait Ranked {
    /// Number of items.
    spec fn count(&self) -> nat;

    /// Whether one item ranks no higher than another.
    spec fn ranks(&self) -> spec_fn(int, int) -> bool;

    /// The ranking is one.
    proof fn ranking(&self)
        ensures
            total_preorder(self.ranks(), self.count()),
    ;

    /// Whether item `i` ranks no higher than item `j`.
    fn at_most(&self, i: usize, j: usize) -> (result: bool)
        requires
            i < self.count(),
            j < self.count(),
        ensures
            result == (self.ranks())(i as int, j as int),
    ;
}

/// Merges two ascending runs of indices.
fn merge<R: Ranked>(items: &R, left: &Vec<usize>, right: &Vec<usize>, Ghost(low): Ghost<int>, Ghost(
    middle,
): Ghost<int>, Ghost(high): Ghost<int>) -> (merged: Vec<usize>)
    requires
        0 <= low <= middle <= high <= items.count(),
        ascending(items.ranks(), indices(left@)),
        holds_range(indices(left@), low, middle),
        ascending(items.ranks(), indices(right@)),
        holds_range(indices(right@), middle, high),
    ensures
        ascending(items.ranks(), indices(merged@)),
        holds_range(indices(merged@), low, high),
{
    let ghost le = items.ranks();
    let ghost l = indices(left@);
    let ghost r = indices(right@);
    proof {
        items.ranking();
    }
    let mut merged: Vec<usize> = Vec::new();
    let mut i: usize = 0;
    let mut j: usize = 0;
    while i < left.len() || j < right.len()
        invariant
            0 <= low <= middle <= high <= items.count(),
            le == items.ranks(),
            total_preorder(le, items.count()),
            l == indices(left@),
            r == indices(right@),
            ascending(le, l),
            holds_range(l, low, middle),
            ascending(le, r),
            holds_range(r, middle, high),
            i <= left@.len(),
            j <= right@.len(),
            merged@.len() == i + j,
            ascending(le, indices(merged@)),
            forall|a: int| 0 <= a < merged@.len() ==> low <= #[trigger] indices(merged@)[a] < high,
            forall|a: int, b: int|
                0 <= a < merged@.len() && i <= b < l.len() ==> before(
                    le,
                    #[trigger] indices(merged@)[a],
                    #[trigger] l[b],
                ),
            forall|a: int, b: int|
                0 <= a < merged@.len() && j <= b < r.len() ==> before(
                    le,
                    #[trigger] indices(merged@)[a],
                    #[trigger] r[b],
                ),
            forall|b: int| 0 <= b < i ==> indices(merged@).contains(#[trigger] l[b]),
            forall|b: int| 0 <= b < j ==> indices(merged@).contains(#[trigger] r[b]),
        decreases left@.len() - i + right@.len() - j,
    {
        let ghost old_merged = indices(merged@);
        let take_left: bool = if i >= left.len() {
            false
        } else if j >= right.len() {
            true
        } else {
            proof {
                assert(l[i as int] == left@[i as int] && r[j as int] == right@[j as int]);
            }
            items.at_most(left[i], right[j])
        };
        if take_left {
            let next: usize = left[i];
            merged.push(next);
            proof {
                assert(l[i as int] == next);
                assert(indices(merged@) =~= old_merged.push(next as int));
                assert forall|b: int| j <= b < r.len() implies before(
                    le,
                    next as int,
                    #[trigger] r[b],
                ) by {
                    assert(le(next as int, r[j as int]));
                    if b > j {
                        assert(before(le, r[j as int], r[b]));
                        assert(le(next as int, r[j as int]) && le(r[j as int], r[b]));
                    }
                }
                assert forall|b: int| 0 <= b < i + 1 implies indices(merged@).contains(
                    #[trigger] l[b],
                ) by {
                    if b < i {
                        let a = choose|a: int| 0 <= a < old_merged.len() && old_merged[a] == l[b];
                        assert(indices(merged@)[a] == l[b]);
                    } else {
                        assert(indices(merged@)[old_merged.len() as int] == l[b]);
                    }
                }
                assert forall|b: int| 0 <= b < j implies indices(merged@).contains(
                    #[trigger] r[b],
                ) by {
                    let a = choose|a: int| 0 <= a < old_merged.len() && old_merged[a] == r[b];
                    assert(indices(merged@)[a] == r[b]);
                }
            }
            i = i + 1;
        } else {
            let next: usize = right[j];
            merged.push(next);
            proof {
                assert(r[j as int] == next);
                assert(indices(merged@) =~= old_merged.push(next as int));
                assert forall|b: int| i <= b < l.len() implies before(
                    le,
                    next as int,
                    #[trigger] l[b],
                ) by {
                    assert(!le(l[i as int], next as int));
                    assert(le(next as int, l[i as int]) || le(l[i as int], next as int));
                    if b > i {
                        assert(before(le, l[i as int], l[b]));
                        assert(le(next as int, l[i as int]) && le(l[i as int], l[b]));
                        if le(l[b], next as int) {
                            assert(le(l[i as int], l[b]) && le(l[b], next as int));
                        }
                    }
                }
                assert forall|b: int| 0 <= b < j + 1 implies indices(merged@).contains(
                    #[trigger] r[b],
                ) by {
                    if b < j {
                        let a = choose|a: int| 0 <= a < old_merged.len() && old_merged[a] == r[b];
                        assert(indices(merged@)[a] == r[b]);
                    } else {
                        assert(indices(merged@)[old_merged.len() as int] == r[b]);
                    }
                }
                assert forall|b: int| 0 <= b < i implies indices(merged@).contains(
                    #[trigger] l[b],
                ) by {
                    let a = choose|a: int| 0 <= a < old_merged.len() && old_merged[a] == l[b];
                    assert(indices(merged@)[a] == l[b]);
                }
            }
            j = j + 1;
        }
    }
    proof {
        assert forall|x: int| low <= x < high implies #[trigger] indices(merged@).contains(x) by {
            if x < middle {
                assert(l.contains(x));
                let b = choose|b: int| 0 <= b < l.len() && l[b] == x;
                assert(indices(merged@).contains(l[b]));
            } else {
                assert(r.contains(x));
                let b = choose|b: int| 0 <= b < r.len() && r[b] == x;
                assert(indices(merged@).contains(r[b]));
            }
        }
    }
    merged
}

/// Sorts the indices from `low` up to `high`.
fn sort_range<R: Ranked>(items: &R, low: usize, high: usize) -> (order: Vec<usize>)
    requires
        low <= high <= items.count(),
    ensures
        ascending(items.ranks(), indices(order@)),
        holds_range(indices(order@), low as int, high as int),
    decreases high - low,
{
    if high - low <= 1 {
        let mut order: Vec<usize> = Vec::new();
        if low < high {
            order.push(low);
            assert(indices(order@)[0] == low);
        }
        return order;
    }
    let middle: usize = low + (high - low) / 2;
    let left = sort_range(items, low, middle);
    let right = sort_range(items, middle, high);
    merge(items, &left, &right, Ghost(low as int), Ghost(middle as int), Ghost(high as int))
}

/// The indices of the items by rank, and those that rank equal as they stand.
pub fn sorted_order<R: Ranked>(items: &R, count: usize) -> (order: Vec<usize>)
    requires
        count == items.count(),
    ensures
        indices(order@) == order_of(items.ranks(), items.count()),
        is_order(items.ranks(), items.count(), indices(order@)),
{
    let order = sort_range(items, 0, count);
    proof {
        lemma_order_unique(items.ranks(), items.count(), indices(order@));
    }
    order
}

/// The items in an order.
pub open spec fn rearranged<T>(items: Seq<T>, order: Seq<int>) -> Seq<T> {
    Seq::new(order.len(), |i: int| items[order[i]])
}

/// Putting items in an order keeps each of them.
proof fn lemma_rearranged<T>(items: Seq<T>, order: Seq<int>)
    requires
        holds_range(order, 0, items.len() as int),
        order.no_duplicates(),
    ensures
        rearranged(items, order).to_multiset() == items.to_multiset(),
    decreases items.len(),
{
    broadcast use vstd::seq_lib::group_to_multiset_ensures;

    let moved = rearranged(items, order);
    if items.len() == 0 {
        assert(moved =~= items);
    } else {
        let last = items.len() - 1;
        assert(order.contains(last));
        let at = choose|at: int| 0 <= at < order.len() && order[at] == last;
        let rest = items.drop_last();
        let fewer = order.remove(at);
        assert(holds_range(fewer, 0, last)) by {
            assert forall|a: int| 0 <= a < fewer.len() implies 0 <= #[trigger] fewer[a] < last by {
                let from = if a < at {
                    a
                } else {
                    a + 1
                };
                assert(fewer[a] == order[from]);
                assert(order[from] != order[at]);
            }
            assert forall|x: int| 0 <= x < last implies #[trigger] fewer.contains(x) by {
                assert(order.contains(x));
                let a = choose|a: int| 0 <= a < order.len() && order[a] == x;
                if a < at {
                    assert(fewer[a] == x);
                } else {
                    assert(fewer[a - 1] == x);
                }
            }
        }
        assert(fewer.no_duplicates()) by {
            assert forall|i: int, j: int|
                0 <= i < fewer.len() && 0 <= j < fewer.len() && i != j implies fewer[i]
                != fewer[j] by {
                let p = if i < at {
                    i
                } else {
                    i + 1
                };
                let q = if j < at {
                    j
                } else {
                    j + 1
                };
                assert(order[p] != order[q]);
            }
        }
        lemma_rearranged(rest, fewer);
        assert(moved.remove(at) =~= rearranged(rest, fewer));
        assert(rest.push(items.last()) =~= items);
        assert(moved =~= moved.remove(at).insert(at, items.last()));
        vstd::seq_lib::to_multiset_insert(moved.remove(at), at, items.last());
    }
}

/// Putting items in the order of a ranking keeps each of them.
pub proof fn lemma_arranged<T>(items: Seq<T>, order: Seq<int>, le: spec_fn(int, int) -> bool)
    requires
        is_order(le, items.len(), order),
    ensures
        rearranged(items, order).to_multiset() == items.to_multiset(),
{
    assert(order.no_duplicates()) by {
        assert forall|i: int, j: int|
            0 <= i < order.len() && 0 <= j < order.len() && i != j implies order[i]
            != order[j] by {
            if i < j {
                assert(before(le, order[i], order[j]));
            } else {
                assert(before(le, order[j], order[i]));
            }
        }
    }
    lemma_rearranged(items, order);
}

} // verus!
