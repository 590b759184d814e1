//! Search of the address table for the function that covers an address.
use vstd::prelude::*;
use crate::error::Error;
use crate::reader::layout::ParsedLayout;
use crate::reader::table;
use crate::reader::table::{address_at, entry_at, raw_function_at, RawFunction, RawView};

verus! {

/// Whether address offsets of this size are compared without adding the base
/// address.
pub open spec fn compared_as_offsets(width: u8) -> bool {
    width == 1 || width == 2 || width == 4 || width == 8
}

/// Whether the function with the given index starts at or before `address`.
pub open spec fn starts_by(s: Seq<u8>, layout: ParsedLayout, address: u64, index: int) -> Result<
    bool,
    Error,
> {
    if compared_as_offsets(layout.address_offset_size) {
        Ok(table::entry_of(s, layout, index) <= address - layout.base_address)
    } else {
        match table::address_of(s, layout, index) {
            Err(error) => Err(error),
            Ok(start) => Ok(start <= address),
        }
    }
}

/// How many functions start at or before `address`, by halving the indices
/// from `low` up to `high`.
pub open spec fn bisect(
    s: Seq<u8>,
    layout: ParsedLayout,
    address: u64,
    low: int,
    high: int,
) -> Result<int, Error>
    decreases high - low,
{
    if low >= high {
        Ok(low)
    } else {
        let middle = low + (high - low) / 2;
        match starts_by(s, layout, address, middle) {
            Err(error) => Err(error),
            Ok(true) => bisect(s, layout, address, middle + 1, high),
            Ok(false) => bisect(s, layout, address, low, middle),
        }
    }
}

/// Index of the last function that starts at or before `address`.
pub open spec fn last_index(s: Seq<u8>, layout: ParsedLayout, address: u64) -> Result<
    Option<int>,
    Error,
> {
    if address < layout.base_address || layout.address_count == 0 {
        Ok(None)
    } else {
        match bisect(s, layout, address, 0, layout.address_count as int) {
            Err(error) => Err(error),
            Ok(count) => Ok(
                if count == 0 {
                    None
                } else {
                    Some(count - 1)
                },
            ),
        }
    }
}

/// First index of the run of functions around `index` that start at `start`.
pub open spec fn run_start(s: Seq<u8>, layout: ParsedLayout, index: int, start: u64) -> Result<
    int,
    Error,
>
    decreases index,
{
    if index <= 0 {
        Ok(0)
    } else {
        match table::address_of(s, layout, index - 1) {
            Err(error) => Err(error),
            Ok(address) => if address == start {
                run_start(s, layout, index - 1, start)
            } else {
                Ok(index)
            },
        }
    }
}

/// Of the functions from `index` on that start at `start`, the first that
/// contains the address or has no size.
pub open spec fn match_in_run(
    s: Seq<u8>,
    layout: ParsedLayout,
    address: u64,
    index: int,
    start: u64,
) -> Result<Option<RawView>, Error>
    decreases layout.address_count - index,
{
    if index >= layout.address_count {
        Ok(None)
    } else {
        match table::raw_of(s, layout, index, start) {
            Err(error) => Err(error),
            Ok(raw) => if raw.range.spec_size() == 0 || raw.range.spec_contains(address) {
                Ok(Some(raw))
            } else if index + 1 >= layout.address_count {
                Ok(None)
            } else {
                match table::address_of(s, layout, index + 1) {
                    Err(error) => Err(error),
                    Ok(next) => if next == start {
                        match_in_run(s, layout, address, index + 1, start)
                    } else {
                        Ok(None)
                    },
                }
            },
        }
    }
}

/// The first index of the run of functions that ends at `last`, and the
/// function of the run that answers for the address.
pub open spec fn run_matching(
    s: Seq<u8>,
    layout: ParsedLayout,
    address: u64,
    last: int,
) -> Result<(int, Option<RawView>), Error> {
    match table::address_of(s, layout, last) {
        Err(error) => Err(error),
        Ok(start) => match run_start(s, layout, last, start) {
            Err(error) => Err(error),
            Ok(first) => match match_in_run(s, layout, address, first, start) {
                Err(error) => Err(error),
                Ok(found) => Ok((first, found)),
            },
        },
    }
}

/// First index of the run of functions before `index` that start at `start`. A
/// start that cannot be read ends the run.
pub open spec fn earlier_start(s: Seq<u8>, layout: ParsedLayout, index: int, start: u64) -> int
    decreases index,
{
    if index <= 0 {
        0
    } else if table::address_of(s, layout, index - 1) == Ok::<u64, Error>(start) {
        earlier_start(s, layout, index - 1, start)
    } else {
        index
    }
}

/// Of the functions from `index` up to `end`, the first that can be read and
/// contains the address, where they start at `start`.
pub open spec fn containing(
    s: Seq<u8>,
    layout: ParsedLayout,
    address: u64,
    index: int,
    end: int,
    start: u64,
) -> Option<RawView>
    decreases end - index,
{
    if index >= end {
        None
    } else {
        match table::raw_of(s, layout, index, start) {
            Ok(raw) if raw.range.spec_contains(address) => Some(raw),
            _ => containing(s, layout, address, index + 1, end, start),
        }
    }
}

/// Of the functions before `end` that can be read, the one that contains the
/// address and starts last.
pub open spec fn matching_before(
    s: Seq<u8>,
    layout: ParsedLayout,
    address: u64,
    end: int,
) -> Option<RawView>
    decreases end,
{
    if end <= 0 {
        None
    } else {
        match table::address_of(s, layout, end - 1) {
            Err(_) => matching_before(s, layout, address, end - 1),
            Ok(start) => {
                let first = earlier_start(s, layout, end - 1, start);
                proof {
                    lemma_earlier_start_bounds(s, layout, end - 1, start);
                }
                match containing(s, layout, address, first, end, start) {
                    Some(raw) => Some(raw),
                    None => matching_before(s, layout, address, first),
                }
            },
        }
    }
}

/// A run starts at one of the functions up to the last.
pub proof fn lemma_earlier_start_bounds(s: Seq<u8>, layout: ParsedLayout, index: int, start: u64)
    requires
        0 <= index,
    ensures
        0 <= earlier_start(s, layout, index, start) <= index,
    decreases index,
{
    if index > 0 {
        lemma_earlier_start_bounds(s, layout, index - 1, start);
    }
}

/// The function that covers `address`: of those that start last at or before
/// it, one that contains it or whose size is unknown; else, of the others that
/// can be read and contain it, the one that starts last.
pub open spec fn matching(s: Seq<u8>, layout: ParsedLayout, address: u64) -> Result<
    Option<RawView>,
    Error,
> {
    match last_index(s, layout, address) {
        Err(error) => Err(error),
        Ok(None) => Ok(None),
        Ok(Some(index)) => match run_matching(s, layout, address, index) {
            Err(error) => Err(error),
            Ok((first, Some(raw))) => Ok(Some(raw)),
            Ok((first, None)) => Ok(matching_before(s, layout, address, first)),
        },
    }
}

proof fn lemma_run_start_bounds(s: Seq<u8>, layout: ParsedLayout, index: int, start: u64)
    requires
        0 <= index,
    ensures
        run_start(s, layout, index, start) matches Ok(first) ==> 0 <= first <= index,
    decreases index,
{
    if index > 0 {
        lemma_run_start_bounds(s, layout, index - 1, start);
    }
}

/// Whether the address table is sorted.
pub open spec fn table_sorted(s: Seq<u8>, layout: ParsedLayout) -> bool {
    forall|i: int, j: int|
        0 <= i <= j < layout.address_count ==> #[trigger] table::entry_of(s, layout, i)
            <= #[trigger] table::entry_of(s, layout, j)
}

/// Whether every start address can be held.
pub open spec fn addresses_fit(s: Seq<u8>, layout: ParsedLayout) -> bool {
    forall|i: int|
        0 <= i < layout.address_count ==> layout.base_address + #[trigger] table::entry_of(
            s,
            layout,
            i,
        ) <= u64::MAX
}

proof fn lemma_bisect(s: Seq<u8>, layout: ParsedLayout, address: u64, low: int, high: int)
    requires
        0 <= low <= high <= layout.address_count,
        address >= layout.base_address,
        table_sorted(s, layout),
        addresses_fit(s, layout),
        forall|i: int|
            0 <= i < low ==> layout.base_address + #[trigger] table::entry_of(s, layout, i)
                <= address,
        forall|i: int|
            high <= i < layout.address_count ==> layout.base_address + #[trigger] table::entry_of(
                s,
                layout,
                i,
            ) > address,
    ensures
        bisect(s, layout, address, low, high) matches Ok(count) && {
            &&& 0 <= count <= layout.address_count
            &&& forall|i: int|
                0 <= i < count ==> layout.base_address + #[trigger] table::entry_of(s, layout, i)
                    <= address
            &&& forall|i: int|
                count <= i < layout.address_count ==> layout.base_address
                    + #[trigger] table::entry_of(s, layout, i) > address
        },
    decreases high - low,
{
    if low < high {
        let middle = low + (high - low) / 2;
        let entry = table::entry_of(s, layout, middle);
        assert(layout.base_address + entry <= u64::MAX);
        if layout.base_address + entry <= address {
            assert forall|i: int| 0 <= i < middle + 1 implies layout.base_address
                + #[trigger] table::entry_of(s, layout, i) <= address by {
                assert(table::entry_of(s, layout, i) <= entry);
            }
            lemma_bisect(s, layout, address, middle + 1, high);
        } else {
            assert forall|i: int| middle <= i < layout.address_count implies layout.base_address
                + #[trigger] table::entry_of(s, layout, i) > address by {
                assert(entry <= table::entry_of(s, layout, i));
            }
            lemma_bisect(s, layout, address, low, middle);
        }
    }
}

/// In a sorted address table, the search finds the last function that starts at
/// or before the address, and nothing where every function starts behind it.
pub proof fn law_search_finds_last(s: Seq<u8>, layout: ParsedLayout, address: u64)
    requires
        table_sorted(s, layout),
        addresses_fit(s, layout),
    ensures
        last_index(s, layout, address) matches Ok(found) && match found {
            Some(index) => {
                &&& 0 <= index < layout.address_count
                &&& layout.base_address + table::entry_of(s, layout, index) <= address
                &&& forall|i: int|
                    index < i < layout.address_count ==> layout.base_address
                        + #[trigger] table::entry_of(s, layout, i) > address
            },
            None => forall|i: int|
                0 <= i < layout.address_count ==> layout.base_address + #[trigger] table::entry_of(
                    s,
                    layout,
                    i,
                ) > address,
        },
{
    if address >= layout.base_address && layout.address_count > 0 {
        lemma_bisect(s, layout, address, 0, layout.address_count as int);
    }
}

/// Finds the last function that starts at or before an address.
pub fn find_address_index(data: &[u8], layout: &ParsedLayout, address: u64) -> (result: Result<
    Option<usize>,
    Error,
>)
    requires
        layout.wf(data@.len()),
    ensures
        match last_index(data@, *layout, address) {
            Ok(Some(index)) => {
                &&& result matches Ok(Some(found))
                &&& found == index
                &&& found < layout.address_count
            },
            Ok(None) => result == Ok::<Option<usize>, Error>(None),
            Err(error) => result == Err::<Option<usize>, Error>(error),
        },
{
    if address < layout.base_address || layout.address_count == 0 {
        return Ok(None);
    }
    let relative: u64 = address - layout.base_address;
    let width: u8 = layout.address_offset_size;
    let as_offsets: bool = width == 1 || width == 2 || width == 4 || width == 8;
    let mut low: usize = 0;
    let mut high: usize = layout.address_count as usize;
    while low < high
        invariant
            layout.wf(data@.len()),
            low <= high <= layout.address_count,
            layout.base_address <= address,
            layout.address_count > 0,
            relative == address - layout.base_address,
            as_offsets == compared_as_offsets(layout.address_offset_size),
            bisect(data@, *layout, address, 0, layout.address_count as int) == bisect(
                data@,
                *layout,
                address,
                low as int,
                high as int,
            ),
        decreases high - low,
    {
        let middle: usize = low + (high - low) / 2;
        let before: bool = if as_offsets {
            entry_at(data, layout, middle) <= relative
        } else {
            address_at(data, layout, middle)? <= address
        };
        if before {
            low = middle + 1;
        } else {
            high = middle;
        }
    }
    if low == 0 {
        Ok(None)
    } else {
        Ok(Some(low - 1))
    }
}

/// Finds the function that answers for an address in the run of functions that
/// ends at `last`, and tells where the run starts.
fn match_run<'data>(
    data: &'data [u8],
    layout: &ParsedLayout,
    address: u64,
    last: usize,
) -> (result: Result<(usize, Option<RawFunction<'data>>), Error>)
    requires
        layout.wf(data@.len()),
        last < layout.address_count,
    ensures
        match run_matching(data@, *layout, address, last as int) {
            Ok((first, view)) => {
                &&& result matches Ok((at, found))
                &&& at == first
                &&& first <= last
                &&& match view {
                    Some(view) => found matches Some(raw) && raw@ == view,
                    None => found is None,
                }
            },
            Err(error) => result == Err::<(usize, Option<RawFunction<'data>>), Error>(error),
        },
{
    let start: u64 = address_at(data, layout, last)?;
    proof {
        lemma_run_start_bounds(data@, *layout, last as int, start);
    }
    let mut first: usize = last;
    let mut walking: bool = true;
    while walking && first > 0
        invariant
            layout.wf(data@.len()),
            last < layout.address_count,
            first <= last,
            table::address_of(data@, *layout, last as int) == Ok::<u64, Error>(start),
            run_start(data@, *layout, last as int, start) == (if walking {
                run_start(data@, *layout, first as int, start)
            } else {
                Ok(first as int)
            }),
        decreases
                first,
                (if walking {
                    1int
                } else {
                    0int
                }),
    {
        if address_at(data, layout, first - 1)? == start {
            first = first - 1;
        } else {
            walking = false;
        }
    }
    let count: usize = layout.address_count as usize;
    let mut index: usize = first;
    while index < count
        invariant
            layout.wf(data@.len()),
            count == layout.address_count,
            first <= last,
            index <= count,
            run_matching(data@, *layout, address, last as int) == (match match_in_run(
                data@,
                *layout,
                address,
                index as int,
                start,
            ) {
                Err(error) => Err(error),
                Ok(found) => Ok((first as int, found)),
            }),
        decreases count - index,
    {
        let raw = raw_function_at(data, layout, index, start)?;
        if raw.range.is_empty() || raw.range.contains(address) {
            return Ok((first, Some(raw)));
        }
        if index + 1 >= count {
            return Ok((first, None));
        }
        if address_at(data, layout, index + 1)? != start {
            return Ok((first, None));
        }
        index = index + 1;
    }
    Ok((first, None))
}

/// Finds the function before `end` that can be read, contains the address and
/// starts last.
fn match_before<'data>(data: &'data [u8], layout: &ParsedLayout, address: u64, end: usize) -> (found:
    Option<RawFunction<'data>>)
    requires
        layout.wf(data@.len()),
        end <= layout.address_count,
    ensures
        match matching_before(data@, *layout, address, end as int) {
            Some(view) => found matches Some(raw) && raw@ == view,
            None => found is None,
        },
{
    let mut left: usize = end;
    while left > 0
        invariant
            layout.wf(data@.len()),
            left <= end <= layout.address_count,
            matching_before(data@, *layout, address, end as int) == matching_before(
                data@,
                *layout,
                address,
                left as int,
            ),
        decreases left,
    {
        match address_at(data, layout, left - 1) {
            Err(_) => {
                left = left - 1;
            },
            Ok(start) => {
                let first: usize = find_earlier_start(data, layout, left - 1, start);
                if let Some(raw) = find_containing(data, layout, address, first, left, start) {
                    return Some(raw);
                }
                left = first;
            },
        }
    }
    None
}

fn find_earlier_start(data: &[u8], layout: &ParsedLayout, index: usize, start: u64) -> (first: usize)
    requires
        layout.wf(data@.len()),
        index < layout.address_count,
    ensures
        first == earlier_start(data@, *layout, index as int, start),
        first <= index,
{
    let mut first: usize = index;
    while first > 0
        invariant
            layout.wf(data@.len()),
            first <= index < layout.address_count,
            earlier_start(data@, *layout, index as int, start) == earlier_start(
                data@,
                *layout,
                first as int,
                start,
            ),
        decreases first,
    {
        match address_at(data, layout, first - 1) {
            Ok(address) => {
                if address != start {
                    return first;
                }
            },
            Err(_) => return first,
        }
        first = first - 1;
    }
    first
}

fn find_containing<'data>(
    data: &'data [u8],
    layout: &ParsedLayout,
    address: u64,
    first: usize,
    end: usize,
    start: u64,
) -> (found: Option<RawFunction<'data>>)
    requires
        layout.wf(data@.len()),
        first <= end <= layout.address_count,
    ensures
        match containing(data@, *layout, address, first as int, end as int, start) {
            Some(view) => found matches Some(raw) && raw@ == view,
            None => found is None,
        },
{
    let mut index: usize = first;
    while index < end
        invariant
            layout.wf(data@.len()),
            first <= index <= end <= layout.address_count,
            containing(data@, *layout, address, first as int, end as int, start) == containing(
                data@,
                *layout,
                address,
                index as int,
                end as int,
                start,
            ),
        decreases end - index,
    {
        if let Ok(raw) = raw_function_at(data, layout, index, start) {
            if raw.range.contains(address) {
                return Some(raw);
            }
        }
        index = index + 1;
    }
    None
}

/// Finds the function that covers an address.
pub fn matching_function<'data>(data: &'data [u8], layout: &ParsedLayout, address: u64) -> (result:
    Result<Option<RawFunction<'data>>, Error>)
    requires
        layout.wf(data@.len()),
    ensures
        match matching(data@, *layout, address) {
            Ok(Some(view)) => result matches Ok(Some(raw)) && raw@ == view,
            Ok(None) => result matches Ok(None),
            Err(error) => result == Err::<Option<RawFunction<'data>>, Error>(error),
        },
{
    let last: usize = match find_address_index(data, layout, address)? {
        Some(index) => index,
        None => return Ok(None),
    };
    let (first, found) = match_run(data, layout, address, last)?;
    if found.is_some() {
        return Ok(found);
    }
    Ok(match_before(data, layout, address, first))
}

} // verus!
