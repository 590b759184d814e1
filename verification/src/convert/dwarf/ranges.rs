//! Address ranges of entries.
use vstd::prelude::*;
use crate::model::{range_at_most, AddressRange};
use crate::sort;
use crate::sort::{sorted_order, Ranked};

verus! {

/// Whether a range lies in one of the given ranges.
pub open spec fn is_within(ranges: Seq<AddressRange>, range: AddressRange) -> bool {
    exists|i: int| 0 <= i < ranges.len() && (#[trigger] ranges[i]).spec_contains_range(range)
}

/// Whether one of the given ranges holds an address.
pub open spec fn is_held(ranges: Seq<AddressRange>, address: u64) -> bool {
    exists|i: int| 0 <= i < ranges.len() && (#[trigger] ranges[i]).spec_contains(address)
}

/// Whether a range is worth importing: it is not empty, its size fits 32 bits,
/// and it lies in one executable range.
pub open spec fn is_live(range: AddressRange, executable: Seq<AddressRange>) -> bool {
    &&& range.spec_size() != 0
    &&& range.spec_size() <= u32::MAX
    &&& is_within(executable, range)
}

/// Returns whether a range lies in one of the given ranges.
pub fn lies_within(ranges: &[AddressRange], range: AddressRange) -> (within: bool)
    ensures
        within == is_within(ranges@, range),
{
    let count: usize = ranges.len();
    let mut i: usize = 0;
    while i < count
        invariant
            count == ranges@.len(),
            i <= count,
            forall|k: int| 0 <= k < i ==> !(#[trigger] ranges@[k]).spec_contains_range(range),
        decreases count - i,
    {
        if ranges[i].contains_range(range) {
            assert(ranges@[i as int].spec_contains_range(range));
            return true;
        }
        i = i + 1;
    }
    false
}

/// Returns whether one of the given ranges holds an address.
pub fn holds_address(ranges: &[AddressRange], address: u64) -> (held: bool)
    ensures
        held == is_held(ranges@, address),
{
    let count: usize = ranges.len();
    let mut i: usize = 0;
    while i < count
        invariant
            count == ranges@.len(),
            i <= count,
            forall|k: int| 0 <= k < i ==> !(#[trigger] ranges@[k]).spec_contains(address),
        decreases count - i,
    {
        if ranges[i].contains(address) {
            assert(ranges@[i as int].spec_contains(address));
            return true;
        }
        i = i + 1;
    }
    false
}

/// Returns whether a range is worth importing.
pub fn is_live_range(range: AddressRange, executable_ranges: &[AddressRange]) -> (live: bool)
    ensures
        live == is_live(range, executable_ranges@),
{
    !range.is_empty() && range.size() <= u32::MAX as u64 && lies_within(executable_ranges, range)
}

/// The ranges ranked by start, and by end where the starts are equal.
pub open spec fn by_range(ranges: Seq<AddressRange>) -> spec_fn(int, int) -> bool {
    |i: int, j: int| range_at_most(ranges[i], ranges[j])
}

/// The ranges by start, and by end where the starts are equal.
pub open spec fn sorted_ranges(ranges: Seq<AddressRange>) -> Seq<AddressRange> {
    let order = sort::order_of(by_range(ranges), ranges.len());
    Seq::new(order.len(), |i: int| ranges[order[i]])
}

/// Sorted ranges with those that touch or overlap joined.
pub open spec fn joined(ranges: Seq<AddressRange>) -> Seq<AddressRange>
    decreases ranges.len(),
{
    if ranges.len() == 0 {
        ranges
    } else {
        let rest = joined(ranges.drop_last());
        let next = ranges.last();
        if rest.len() > 0 && next.start <= rest.last().end {
            let last = rest.last();
            rest.drop_last().push(
                AddressRange {
                    start: last.start,
                    end: if last.end < next.end {
                        next.end
                    } else {
                        last.end
                    },
                },
            )
        } else {
            rest.push(next)
        }
    }
}

/// The union of ranges as sorted ranges that do not touch.
pub open spec fn coalesced(ranges: Seq<AddressRange>) -> Seq<AddressRange> {
    joined(sorted_ranges(ranges))
}

proof fn lemma_ranking(ranges: Seq<AddressRange>)
    ensures
        sort::total_preorder(by_range(ranges), ranges.len()),
{
}

/// Whether ranges stand by start.
spec fn by_start(ranges: Seq<AddressRange>) -> bool {
    forall|i: int, j: int|
        0 <= i <= j < ranges.len() ==> (#[trigger] ranges[i]).start <= (#[trigger] ranges[j]).start
}

/// Whether every range ascends and ends before the next one starts.
pub open spec fn apart(ranges: Seq<AddressRange>) -> bool {
    &&& forall|i: int| 0 <= i < ranges.len() ==> (#[trigger] ranges[i]).start < ranges[i].end
    &&& forall|i: int, j: int|
        0 <= i < j < ranges.len() ==> (#[trigger] ranges[i]).end < (#[trigger] ranges[j]).start
}

/// What joining the first ranges has come to.
spec fn is_joined(parts: Seq<AddressRange>, whole: Seq<AddressRange>) -> bool {
    &&& apart(whole)
    &&& parts.len() > 0 ==> whole.len() > 0 && whole.last().start <= parts.last().start
    &&& forall|address: u64| is_held(parts, address) <==> is_held(whole, address)
}

proof fn lemma_held_push(ranges: Seq<AddressRange>, range: AddressRange, address: u64)
    ensures
        is_held(ranges.push(range), address) <==> is_held(ranges, address) || range.spec_contains(
            address,
        ),
{
    let grown = ranges.push(range);
    if is_held(ranges, address) {
        let i = choose|i: int|
            0 <= i < ranges.len() && (#[trigger] ranges[i]).spec_contains(address);
        assert(grown[i].spec_contains(address));
    }
    if range.spec_contains(address) {
        assert(grown[ranges.len() as int].spec_contains(address));
    }
    if is_held(grown, address) {
        let i = choose|i: int| 0 <= i < grown.len() && (#[trigger] grown[i]).spec_contains(address);
        if i < ranges.len() {
            assert(ranges[i].spec_contains(address));
        }
    }
}

proof fn lemma_joined(ranges: Seq<AddressRange>)
    requires
        by_start(ranges),
        forall|i: int| 0 <= i < ranges.len() ==> (#[trigger] ranges[i]).start < ranges[i].end,
    ensures
        is_joined(ranges, joined(ranges)),
    decreases ranges.len(),
{
    if ranges.len() > 0 {
        let head = ranges.drop_last();
        let next = ranges.last();
        let rest = joined(head);
        let whole = joined(ranges);
        assert(next == ranges[ranges.len() - 1]);
        assert forall|i: int, j: int| 0 <= i <= j < head.len() implies (#[trigger] head[i]).start
            <= (#[trigger] head[j]).start by {
            assert(head[i] == ranges[i] && head[j] == ranges[j]);
        }
        assert forall|i: int| 0 <= i < head.len() implies (#[trigger] head[i]).start
            < head[i].end by {
            assert(head[i] == ranges[i]);
        }
        lemma_joined(head);
        if head.len() > 0 {
            assert(head.last() == ranges[ranges.len() - 2]);
        } else {
            assert(rest.len() == 0);
        }
        assert(head.push(next) =~= ranges);
        if rest.len() > 0 && next.start <= rest.last().end {
            let last = rest.last();
            let front = rest.drop_last();
            let grown = AddressRange {
                start: last.start,
                end: if last.end < next.end {
                    next.end
                } else {
                    last.end
                },
            };
            assert(front.push(last) =~= rest);
            assert(whole == front.push(grown));
            assert(head.len() > 0);
            assert forall|address: u64| is_held(ranges, address) <==> is_held(whole, address) by {
                lemma_held_push(head, next, address);
                lemma_held_push(front, last, address);
                lemma_held_push(front, grown, address);
                assert(last.start <= next.start <= last.end);
            }
            assert forall|i: int, j: int| 0 <= i < j < whole.len() implies (
            #[trigger] whole[i]).end < (#[trigger] whole[j]).start by {
                assert(whole[i] == rest[i]);
                assert(rest[i].end < rest[j].start);
            }
        } else {
            assert forall|address: u64| is_held(ranges, address) <==> is_held(whole, address) by {
                lemma_held_push(head, next, address);
                lemma_held_push(rest, next, address);
            }
            assert forall|i: int, j: int| 0 <= i < j < whole.len() implies (
            #[trigger] whole[i]).end < (#[trigger] whole[j]).start by {
                assert(whole[i] == rest[i]);
                if j == rest.len() {
                    assert(rest.last() == rest[rest.len() - 1]);
                    if i < rest.len() - 1 {
                        assert(rest[i].end < rest[rest.len() - 1].start);
                    }
                }
            }
        }
    }
}

/// Coalescing ranges that are not empty gives ascending ranges that do not
/// touch, and they hold the same addresses.
pub proof fn law_coalesced_ranges(ranges: Seq<AddressRange>)
    requires
        forall|i: int| 0 <= i < ranges.len() ==> (#[trigger] ranges[i]).start < ranges[i].end,
    ensures
        apart(coalesced(ranges)),
        forall|address: u64| is_held(ranges, address) <==> is_held(coalesced(ranges), address),
{
    lemma_ranking(ranges);
    sort::lemma_order_exists(by_range(ranges), ranges.len());
    let order = sort::order_of(by_range(ranges), ranges.len());
    let sorted = sorted_ranges(ranges);
    assert forall|i: int, j: int| 0 <= i <= j < sorted.len() implies (#[trigger] sorted[i]).start
        <= (#[trigger] sorted[j]).start by {
        if i < j {
            assert(sort::before(by_range(ranges), order[i], order[j]));
        }
    }
    assert forall|i: int| 0 <= i < sorted.len() implies (#[trigger] sorted[i]).start
        < sorted[i].end by {
        assert(0 <= order[i] < ranges.len());
    }
    lemma_joined(sorted);
    assert forall|address: u64| is_held(ranges, address) <==> is_held(
        coalesced(ranges),
        address,
    ) by {
        if is_held(ranges, address) {
            let i = choose|i: int|
                0 <= i < ranges.len() && (#[trigger] ranges[i]).spec_contains(address);
            assert(order.contains(i));
            let k = choose|k: int| 0 <= k < order.len() && order[k] == i;
            assert(sorted[k].spec_contains(address));
        }
        if is_held(sorted, address) {
            let k = choose|k: int|
                0 <= k < sorted.len() && (#[trigger] sorted[k]).spec_contains(address);
            assert(ranges[order[k]].spec_contains(address));
        }
    }
}

/// Ranges ranked by start and end.
struct RankedRanges<'ranges> {
    ranges: &'ranges Vec<AddressRange>,
}

impl<'ranges> Ranked for RankedRanges<'ranges> {
    closed spec fn count(&self) -> nat {
        self.ranges@.len()
    }

    closed spec fn ranks(&self) -> spec_fn(int, int) -> bool {
        by_range(self.ranges@)
    }

    proof fn ranking(&self) {
    }

    fn at_most(&self, i: usize, j: usize) -> (result: bool) {
        let a: AddressRange = self.ranges[i];
        let b: AddressRange = self.ranges[j];
        a.start < b.start || (a.start == b.start && a.end <= b.end)
    }
}

/// Sorts ranges by start and end.
pub fn sort_ranges(ranges: &Vec<AddressRange>) -> (sorted: Vec<AddressRange>)
    ensures
        sorted@ == sorted_ranges(ranges@),
{
    let ranked = RankedRanges { ranges };
    let order = sorted_order(&ranked, ranges.len());
    let ghost places = sort::order_of(by_range(ranges@), ranges@.len());
    let mut sorted: Vec<AddressRange> = Vec::with_capacity(order.len());
    let mut i: usize = 0;
    while i < order.len()
        invariant
            sort::is_order(by_range(ranges@), ranges@.len(), places),
            places == sort::indices(order@),
            i <= order@.len(),
            sorted@.len() == i,
            forall|k: int| 0 <= k < i ==> #[trigger] sorted@[k] == ranges@[places[k]],
        decreases order@.len() - i,
    {
        assert(places[i as int] == order@[i as int]);
        let place: usize = order[i];
        sorted.push(ranges[place]);
        i = i + 1;
    }
    assert(sorted@ =~= sorted_ranges(ranges@));
    sorted
}

/// Sorts ranges and joins those that touch or overlap.
pub fn coalesce_ranges(ranges: &mut Vec<AddressRange>)
    ensures
        final(ranges)@ == coalesced(old(ranges)@),
{
    let sorted = sort_ranges(ranges);
    let mut whole: Vec<AddressRange> = Vec::with_capacity(sorted.len());
    let mut i: usize = 0;
    assert(whole@ =~= joined(sorted@.subrange(0, 0)));
    while i < sorted.len()
        invariant
            i <= sorted@.len(),
            whole@ == joined(sorted@.subrange(0, i as int)),
        decreases sorted@.len() - i,
    {
        assert(sorted@.subrange(0, i + 1).drop_last() =~= sorted@.subrange(0, i as int));
        let next: AddressRange = sorted[i];
        let count: usize = whole.len();
        if count > 0 && next.start <= whole[count - 1].end {
            let ghost before = whole@;
            let last: AddressRange = whole[count - 1];
            let end: u64 = if last.end < next.end {
                next.end
            } else {
                last.end
            };
            let grown = AddressRange { start: last.start, end };
            whole.set(count - 1, grown);
            assert(whole@ =~= before.drop_last().push(grown));
        } else {
            whole.push(next);
        }
        i = i + 1;
    }
    assert(sorted@.subrange(0, sorted@.len() as int) =~= sorted@);
    *ranges = whole;
}

} // verus!
