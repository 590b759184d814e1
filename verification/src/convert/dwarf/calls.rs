//! Laws on the call sites and inline calls that entries give.
use vstd::prelude::*;

use crate::convert::diagnostic::WarningView;
use crate::convert::dwarf::details;
use crate::convert::dwarf::details::{Details, Search};
use crate::convert::dwarf::dies;
use crate::convert::dwarf::dies::CallSiteWork;
use crate::convert::dwarf::model;
use crate::convert::dwarf::model::{Address, Entry, ListedRange, Ranges, Unit, Units, DW_TAG_CALL_SITE};
use crate::convert::dwarf::nesting;
use crate::convert::dwarf::ranges;
use crate::convert::dwarf::references;
use crate::error::ErrorView;
use crate::model::{AddressRange, CallSiteFlags, CallSiteView, FileIndex, InlineView};

verus! {

/// The call sites of the entries from `low` up to `high`, in order: of each entry of
/// a call site that returns into the range.
pub open spec fn sites_of(search: Search, low: int, high: int) -> Seq<CallSiteView>
    decreases high - low,
{
    if high <= low {
        Seq::empty()
    } else {
        let before = sites_of(search, low, high - 1);
        let entry = search.unit.entries@[high - 1];
        match entry.call_return_pc {
            Some(Address::Known(address)) if entry.tag == DW_TAG_CALL_SITE && search.range.start
                <= address < search.range.end => before.push(
                CallSiteView {
                    return_offset: (address - search.range.start) as u64,
                    flags: CallSiteFlags(0),
                    match_regex: dies::call_site_patterns(
                        search.units,
                        search.supplementary,
                        search.unit,
                        entry,
                    )->Ok_0,
                },
            ),
            _ => before,
        }
    }
}

/// The call sites of a stack.
spec fn stacked(stack: Seq<(isize, CallSiteView)>) -> Seq<CallSiteView> {
    stack.map_values(|frame: (isize, CallSiteView)| frame.1)
}

/// All call sites, open or done.
spec fn held(work: CallSiteWork) -> Seq<CallSiteView> {
    work.done + stacked(work.stack)
}

proof fn lemma_finished_held(work: CallSiteWork, depth: isize)
    ensures
        ({
            let after = dies::call_sites_finished(work, depth);
            &&& held(after).to_multiset() == held(work).to_multiset()
            &&& after.stack.len() <= work.stack.len()
            &&& after.stack == work.stack.take(after.stack.len() as int)
            &&& (forall|i: int| 0 <= i < work.stack.len() ==> (#[trigger] work.stack[i]).0 >= depth)
                ==> after.stack.len() == 0
        }),
    decreases work.stack.len(),
{
    broadcast use vstd::seq_lib::group_to_multiset_ensures;

    if work.stack.len() == 0 || work.stack.last().0 < depth {
        assert(work.stack.take(work.stack.len() as int) =~= work.stack);
    } else {
        let next = CallSiteWork {
            stack: work.stack.drop_last(),
            done: work.done.push(work.stack.last().1),
        };
        let site = work.stack.last().1;
        lemma_finished_held(next, depth);
        let rest = stacked(next.stack);
        assert(stacked(work.stack) =~= rest.push(site));
        assert(held(work) =~= (work.done + rest).push(site));
        assert(held(next) =~= (work.done.push(site)) + rest);
        vstd::seq_lib::lemma_multiset_commutative(work.done, rest);
        vstd::seq_lib::lemma_multiset_commutative(work.done.push(site), rest);
        assert(held(next).to_multiset() =~= held(work).to_multiset());
        let after = dies::call_sites_finished(work, depth);
        assert(after.stack =~= work.stack.take(after.stack.len() as int));
    }
}

proof fn lemma_descended_held(
    search: Search,
    found: Details,
    root: isize,
    index: int,
    from: int,
) -> (end: int)
    requires
        search.call_sites,
        found.error is None,
        0 <= index < from <= search.unit.entries@.len(),
        root == search.unit.entries@[index].depth,
        forall|e: int| index < e < from ==> (#[trigger] search.unit.entries@[e]).depth > root,
        held(found.calls).to_multiset() == sites_of(search, index + 1, from).to_multiset(),
        forall|i: int|
            0 <= i < found.calls.stack.len() ==> (#[trigger] found.calls.stack[i]).0 >= root,
        details::descended(search, found, root, from).error is None,
    ensures
        ({
            let after = details::descended(search, found, root, from);
            &&& held(after.calls).to_multiset() == sites_of(search, index + 1, end).to_multiset()
            &&& forall|i: int|
                0 <= i < after.calls.stack.len() ==> (#[trigger] after.calls.stack[i]).0 >= root
        }),
        from <= end <= search.unit.entries@.len(),
        forall|e: int| index < e < end ==> (#[trigger] search.unit.entries@[e]).depth > root,
        end == search.unit.entries@.len() || search.unit.entries@[end].depth <= root,
    decreases search.unit.entries@.len() - from,
{
    broadcast use vstd::seq_lib::group_to_multiset_ensures;

    let entries = search.unit.entries@;
    if from >= entries.len() || entries[from].depth <= root {
        from
    } else {
        let entry = entries[from];
        let next = details::with_entry(search, found, entry);
        let done = dies::call_sites_finished(found.calls, entry.depth);
        lemma_finished_held(found.calls, entry.depth);
        let above = Details {
            calls: done,
            inline: dies::inlines_finished(found.inline, entry.depth),
            ..found
        };
        let called = details::with_call_site(search, above, entry);
        assert(next.calls == called.calls);
        let before = sites_of(search, index + 1, from);
        let sites = sites_of(search, index + 1, from + 1);
        assert forall|i: int| 0 <= i < next.calls.stack.len() implies (
        #[trigger] next.calls.stack[i]).0 >= root by {
            if i < done.stack.len() {
                assert(next.calls.stack[i] == done.stack[i]);
                assert(done.stack[i] == found.calls.stack[i]);
            }
        }
        if next.calls.stack.len() > done.stack.len() {
            let site = next.calls.stack.last().1;
            assert(stacked(next.calls.stack) =~= stacked(done.stack).push(site));
            assert(held(next.calls) =~= held(done).push(site));
            assert(sites == before.push(site));
        } else {
            assert(next.calls == done);
            assert(sites == before);
        }
        assert(held(next.calls).to_multiset() =~= sites.to_multiset());
        lemma_descended_held(search, next, root, index, from + 1)
    }
}

/// Whether call sites are those of the entries below the one at `index`, which end
/// before `end`.
pub open spec fn sites_follow_entries(
    search: Search,
    index: int,
    sites: Seq<CallSiteView>,
    end: int,
) -> bool {
    let entries = search.unit.entries@;
    &&& index < end <= entries.len()
    &&& forall|e: int| index < e < end ==> nesting::encloses(entries, index, e)
    &&& end < entries.len() ==> !nesting::encloses(entries, index, end)
    &&& sites.to_multiset() == sites_of(search, index + 1, end).to_multiset()
}

/// The call sites of a subprogram are exactly those of the entries below it that
/// return into its range, each as often as it occurs.
pub proof fn law_call_sites_are_those_of_entries(
    search: Search,
    index: int,
    warnings: Seq<WarningView>,
)
    requires
        search.call_sites,
        0 <= index < search.unit.entries@.len(),
    ensures
        details::descendants_of(search, index, warnings).result matches Ok(found) ==> exists|
            end: int,
        | #[trigger] sites_follow_entries(search, index, found.call_sites, end),
{
    broadcast use vstd::seq_lib::group_to_multiset_ensures;

    let entries = search.unit.entries@;
    if let Ok(found) = details::descendants_of(search, index, warnings).result {
        let root = entries[index].depth;
        let nothing = details::nothing_found(warnings);
        assert(held(nothing.calls) =~= Seq::<CallSiteView>::empty());
        assert(sites_of(search, index + 1, index + 1) =~= Seq::<CallSiteView>::empty());
        let end = lemma_descended_held(search, nothing, root, index, index + 1);
        let after = details::descended(search, nothing, root, index + 1);
        lemma_finished_held(after.calls, root);
        let last = dies::call_sites_finished(after.calls, root);
        assert(stacked(last.stack) =~= Seq::<CallSiteView>::empty());
        assert(held(last) =~= last.done);
        assert(sites_follow_entries(search, index, found.call_sites, end));
    }
}

/// Whether an address lies in a listed range that is not empty and lies in one of
/// the ranges around it.
pub open spec fn is_called_at(
    listed: Seq<ListedRange>,
    parents: Seq<AddressRange>,
    address: u64,
) -> bool {
    exists|i: int, p: int|
        0 <= i < listed.len() && 0 <= p < parents.len() && (#[trigger] listed[i]).begin <= address
            < listed[i].end && (#[trigger] parents[p]).start <= listed[i].begin && listed[i].end
            <= parents[p].end
}

proof fn lemma_kept_ranges(listed: Seq<ListedRange>, parents: Seq<AddressRange>)
    ensures
        forall|k: int|
            0 <= k < dies::kept_ranges(listed, parents).len() ==> (#[trigger] dies::kept_ranges(
                listed,
                parents,
            )[k]).start < dies::kept_ranges(listed, parents)[k].end,
        forall|address: u64| #[trigger]
            ranges::is_held(dies::kept_ranges(listed, parents), address) <==> is_called_at(
                listed,
                parents,
                address,
            ),
    decreases listed.len(),
{
    let kept = dies::kept_ranges(listed, parents);
    if listed.len() > 0 {
        let head = listed.drop_last();
        let rest = dies::kept_ranges(head, parents);
        let last = listed.last();
        let n = listed.len() - 1;
        let own = AddressRange { start: last.begin, end: last.end };
        lemma_kept_ranges(head, parents);
        assert forall|address: u64| #[trigger]
            ranges::is_held(kept, address) <==> is_called_at(listed, parents, address) by {
            if ranges::is_held(kept, address) {
                let k = choose|k: int|
                    0 <= k < kept.len() && (#[trigger] kept[k]).spec_contains(address);
                if k < rest.len() {
                    assert(rest[k].spec_contains(address));
                    assert(ranges::is_held(rest, address));
                    let (i, p) = choose|i: int, p: int|
                        0 <= i < head.len() && 0 <= p < parents.len() && (#[trigger] head[i]).begin
                            <= address < head[i].end && (#[trigger] parents[p]).start
                            <= head[i].begin && head[i].end <= parents[p].end;
                    assert(listed[i] == head[i]);
                    assert(parents[p].start <= listed[i].begin);
                } else {
                    let p = choose|p: int|
                        0 <= p < parents.len() && (#[trigger] parents[p]).spec_contains_range(own);
                    assert(listed[n] == last);
                    assert(parents[p].start <= listed[n].begin);
                }
            }
            if is_called_at(listed, parents, address) {
                let (i, p) = choose|i: int, p: int|
                    0 <= i < listed.len() && 0 <= p < parents.len() && (#[trigger] listed[i]).begin
                        <= address < listed[i].end && (#[trigger] parents[p]).start
                        <= listed[i].begin && listed[i].end <= parents[p].end;
                if i < n {
                    assert(head[i] == listed[i]);
                    assert(parents[p].start <= head[i].begin);
                    assert(is_called_at(head, parents, address));
                    assert(ranges::is_held(rest, address));
                    let k = choose|k: int|
                        0 <= k < rest.len() && (#[trigger] rest[k]).spec_contains(address);
                    assert(kept[k] == rest[k]);
                } else {
                    assert(parents[p].spec_contains_range(own));
                    assert(kept[rest.len() as int] == own);
                    assert(kept[rest.len() as int].spec_contains(address));
                }
            }
        }
    }
}

/// An inline call has the name of its entry and holds the addresses of the entry's
/// ranges as far as these lie in the ranges around it, in ascending ranges that do
/// not touch. It was called from the file that its index stands for and from its
/// line, or from none where the line does not fit. An entry gives no call only where
/// it has no name or holds no such address.
pub proof fn law_inline_call_tells_its_entry(
    units: Units,
    supplementary: Option<Units>,
    unit: Unit,
    entry: Entry,
    parents: Seq<AddressRange>,
    files: Map<u64, FileIndex>,
    warnings: Seq<WarningView>,
)
    ensures
        dies::inline_node_of(
            units,
            supplementary,
            unit,
            entry,
            parents,
            files,
            warnings,
        ).result matches Ok(Some(node)) ==> {
            &&& references::resolved_name(units, supplementary, unit, entry) == Ok::<
                Option<Seq<u8>>,
                ErrorView,
            >(Some(node.name))
            &&& entry.ranges matches Ranges::Listed { ranges: listed, failure }
            &&& failure is None
            &&& node.ranges.len() > 0
            &&& ranges::apart(node.ranges)
            &&& forall|address: u64| #[trigger]
                ranges::is_held(node.ranges, address) <==> is_called_at(listed@, parents, address)
            &&& node.call_file == (match model::file_index_of(entry.call_file) {
                Some(index) if files.dom().contains(index) => files[index],
                _ => FileIndex(0),
            })
            &&& node.call_line == (match model::unsigned_of(entry.call_line) {
                Some(line) if line <= u32::MAX => line as u32,
                _ => 0,
            })
            &&& node.children.len() == 0
        },
        dies::inline_node_of(
            units,
            supplementary,
            unit,
            entry,
            parents,
            files,
            warnings,
        ).result == Ok::<Option<InlineView>, ErrorView>(None) ==> {
            ||| references::resolved_name(units, supplementary, unit, entry) == Ok::<
                Option<Seq<u8>>,
                ErrorView,
            >(None)
            ||| entry.ranges matches Ranges::Listed { ranges: listed, failure } && (forall|
                address: u64,
            |
                !#[trigger] is_called_at(listed@, parents, address))
        },
{
    if let Ranges::Listed { ranges: listed, failure } = entry.ranges {
        lemma_kept_ranges(listed@, parents);
        let kept = dies::kept_ranges(listed@, parents);
        ranges::law_coalesced_ranges(kept);
        if ranges::coalesced(kept).len() == 0 {
            assert forall|address: u64| !#[trigger] is_called_at(listed@, parents, address) by {
                assert(ranges::is_held(kept, address) <==> ranges::is_held(
                    ranges::coalesced(kept),
                    address,
                ));
            }
        }
    }
    if let Ok(Some(node)) = dies::inline_node_of(
        units,
        supplementary,
        unit,
        entry,
        parents,
        files,
        warnings,
    ).result {
        if let Ranges::Listed { ranges: listed, failure } = entry.ranges {
            lemma_kept_ranges(listed@, parents);
            let kept = dies::kept_ranges(listed@, parents);
            ranges::law_coalesced_ranges(kept);
            assert forall|address: u64| #[trigger]
                ranges::is_held(node.ranges, address) <==> is_called_at(
                    listed@,
                    parents,
                    address,
                ) by {
                assert(ranges::is_held(kept, address) <==> ranges::is_held(node.ranges, address));
            }
        }
    }
}

} // verus!
