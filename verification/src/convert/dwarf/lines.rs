//! Line rows of a unit.
use std::collections::HashMap;

use vstd::prelude::*;
use vstd::std_specs::hash::*;

use crate::model::{AddressRange, FileIndex, LineEntry};
use crate::normalize;
use crate::normalize::compact_line_rows;

verus! {

broadcast use vstd::std_specs::hash::group_hash_axioms;

/// A row with the statement sequence that it belongs to.
#[derive(Clone, Copy, Debug, PartialEq, Eq)]
pub struct SequencedLine {
    /// The row.
    pub entry: LineEntry,
    /// Offset at which the row's sequence begins.
    pub statement_sequence: Option<u64>,
}

/// The addresses that a statement sequence covers.
#[derive(Clone, Copy, Debug, PartialEq, Eq)]
pub struct LineSequenceRange {
    /// Covered addresses.
    pub range: AddressRange,
    /// Offset at which the sequence begins.
    pub statement_sequence: Option<u64>,
}

/// The line rows of a unit.
pub struct UnitLines {
    /// The rows by address.
    pub entries: Vec<SequencedLine>,
    /// The files by the index that the line program gives them.
    pub files: HashMap<u64, FileIndex>,
    /// What the sequences cover.
    pub sequences: Vec<LineSequenceRange>,
}

/// Whether rows ascend by address.
pub open spec fn ascend(rows: Seq<SequencedLine>) -> bool {
    forall|i: int, j: int|
        0 <= i <= j < rows.len() ==> (#[trigger] rows[i]).entry.address <= (
        #[trigger] rows[j]).entry.address
}

/// Number of rows up to the last one below an address.
pub open spec fn rows_below(rows: Seq<SequencedLine>, address: u64) -> nat
    decreases rows.len(),
{
    if rows.len() == 0 {
        0
    } else if rows.last().entry.address < address {
        rows.len()
    } else {
        rows_below(rows.drop_last(), address)
    }
}

/// Whether a sequence is the wanted one, if one is wanted.
pub open spec fn is_wanted(wanted: Option<u64>, sequence: Option<u64>) -> bool {
    wanted is None || sequence == wanted
}

/// The rows that belong to the wanted sequence.
pub open spec fn wanted_rows(rows: Seq<SequencedLine>, wanted: Option<u64>) -> Seq<LineEntry>
    decreases rows.len(),
{
    if rows.len() == 0 {
        Seq::empty()
    } else {
        let rest = wanted_rows(rows.drop_last(), wanted);
        if is_wanted(wanted, rows.last().statement_sequence) {
            rest.push(rows.last().entry)
        } else {
            rest
        }
    }
}

/// The last row that belongs to the wanted sequence.
pub open spec fn last_wanted(rows: Seq<SequencedLine>, wanted: Option<u64>) -> Option<LineEntry>
    decreases rows.len(),
{
    if rows.len() == 0 {
        None
    } else if is_wanted(wanted, rows.last().statement_sequence) {
        Some(rows.last().entry)
    } else {
        last_wanted(rows.drop_last(), wanted)
    }
}

/// Whether a sequence begins at an offset.
pub open spec fn sequence_exists(sequences: Seq<LineSequenceRange>, offset: u64) -> bool {
    exists|i: int|
        0 <= i < sequences.len() && (#[trigger] sequences[i]).statement_sequence == Some(offset)
}

/// Whether a wanted sequence covers an address.
pub open spec fn is_covered(
    sequences: Seq<LineSequenceRange>,
    wanted: Option<u64>,
    address: u64,
) -> bool {
    exists|i: int|
        0 <= i < sequences.len() && is_wanted(
            wanted,
            (#[trigger] sequences[i]).statement_sequence,
        ) && sequences[i].range.spec_contains(address)
}

/// The first sequence that covers an address.
pub open spec fn covering_sequence(sequences: Seq<LineSequenceRange>, address: u64) -> Option<u64>
    decreases sequences.len(),
{
    if sequences.len() == 0 {
        None
    } else if sequences[0].range.spec_contains(address) {
        sequences[0].statement_sequence
    } else {
        covering_sequence(sequences.drop_first(), address)
    }
}

/// The sequence that a request selects.
pub open spec fn selected_sequence(
    sequences: Seq<LineSequenceRange>,
    requested: Option<u64>,
) -> Option<u64> {
    match requested {
        Some(offset) if sequence_exists(sequences, offset) => Some(offset),
        _ => None,
    }
}

/// The sequence whose row may stand for an address.
pub open spec fn clamping_sequence(
    sequences: Seq<LineSequenceRange>,
    requested: Option<u64>,
    address: u64,
) -> Option<u64> {
    match selected_sequence(sequences, requested) {
        Some(offset) => Some(offset),
        None => covering_sequence(sequences, address),
    }
}

/// The rows in a range.
pub open spec fn rows_within(
    entries: Seq<SequencedLine>,
    range: AddressRange,
) -> Seq<SequencedLine> {
    let start = rows_below(entries, range.start);
    let end = rows_below(entries, range.end);
    if start <= end {
        entries.subrange(start as int, end as int)
    } else {
        Seq::empty()
    }
}

/// The row that stands for the start of a range whose rows are `rows`.
pub open spec fn clamped_row(
    entries: Seq<SequencedLine>,
    sequences: Seq<LineSequenceRange>,
    range: AddressRange,
    requested: Option<u64>,
    rows: Seq<LineEntry>,
) -> Option<LineEntry> {
    if is_covered(sequences, selected_sequence(sequences, requested), range.start) && (rows.len()
        == 0 || rows[0].address > range.start) {
        match last_wanted(
            entries.subrange(0, rows_below(entries, range.start) as int),
            clamping_sequence(sequences, requested, range.start),
        ) {
            Some(row) => Some(LineEntry { address: range.start, ..row }),
            None => None,
        }
    } else {
        None
    }
}

/// The rows of a function.
pub open spec fn function_rows(
    entries: Seq<SequencedLine>,
    sequences: Seq<LineSequenceRange>,
    range: AddressRange,
    requested: Option<u64>,
) -> Seq<LineEntry> {
    let rows = wanted_rows(
        rows_within(entries, range),
        selected_sequence(sequences, requested),
    );
    normalize::compacted(
        match clamped_row(entries, sequences, range, requested, rows) {
            Some(row) => seq![row] + rows,
            None => rows,
        },
    )
}

/// Whether rows were found although the requested sequence does not exist.
pub open spec fn is_invalid_request(
    sequences: Seq<LineSequenceRange>,
    requested: Option<u64>,
    rows: Seq<LineEntry>,
) -> bool {
    &&& requested matches Some(offset)
    &&& !sequence_exists(sequences, offset)
    &&& rows.len() > 0
}

proof fn lemma_rows_below(rows: Seq<SequencedLine>, address: u64)
    requires
        ascend(rows),
    ensures
        rows_below(rows, address) <= rows.len(),
        forall|i: int|
            0 <= i < rows.len() ==> ((#[trigger] rows[i]).entry.address < address <==> i
                < rows_below(rows, address)),
    decreases rows.len(),
{
    if rows.len() > 0 {
        lemma_rows_below(rows.drop_last(), address);
        assert forall|i: int| 0 <= i < rows.len() implies ((
        #[trigger] rows[i]).entry.address < address <==> i < rows_below(rows, address)) by {
            if i < rows.len() - 1 {
                assert(rows.drop_last()[i] == rows[i]);
                assert(rows[i].entry.address <= rows[rows.len() - 1].entry.address);
            }
        }
    }
}

/// Whether rows ascend by address from `low` up to `top`.
spec fn climbs(rows: Seq<LineEntry>, low: u64, top: u64) -> bool {
    &&& forall|i: int| 0 <= i < rows.len() ==> low <= (#[trigger] rows[i]).address <= top
    &&& forall|i: int, j: int|
        0 <= i <= j < rows.len() ==> (#[trigger] rows[i]).address <= (#[trigger] rows[j]).address
}

proof fn lemma_climbs_on(rows: Seq<LineEntry>, low: u64, top: u64, next: LineEntry)
    requires
        climbs(rows, low, top),
        rows.len() > 0 ==> top <= next.address,
        low <= next.address,
    ensures
        climbs(rows.push(next), low, next.address),
        rows.len() > 0 ==> climbs(rows, low, next.address),
{
    let grown = rows.push(next);
    assert forall|i: int, j: int| 0 <= i <= j < grown.len() implies (
    #[trigger] grown[i]).address <= (#[trigger] grown[j]).address by {
        if i < rows.len() {
            assert(rows[i].address <= top);
        }
    }
}

proof fn lemma_wanted_rows(rows: Seq<SequencedLine>, wanted: Option<u64>, low: u64)
    requires
        ascend(rows),
        rows.len() > 0,
        forall|i: int| 0 <= i < rows.len() ==> low <= (#[trigger] rows[i]).entry.address,
    ensures
        climbs(wanted_rows(rows, wanted), low, rows.last().entry.address),
    decreases rows.len(),
{
    let head = rows.drop_last();
    let last = rows.last();
    assert(last == rows[rows.len() - 1]);
    let rest = wanted_rows(head, wanted);
    if head.len() > 0 {
        lemma_wanted_rows(head, wanted, low);
        assert(head.last() == rows[rows.len() - 2]);
        lemma_climbs_on(rest, low, head.last().entry.address, last.entry);
    } else {
        assert(rest.len() == 0);
    }
}

proof fn lemma_compacted_ascends(rows: Seq<LineEntry>, low: u64, top: u64)
    requires
        climbs(rows, low, top),
    ensures
        climbs(normalize::compacted(rows), low, top),
        rows.len() > 0 ==> climbs(normalize::compacted(rows), low, rows.last().address),
    decreases rows.len(),
{
    if rows.len() > 0 {
        let head = rows.drop_last();
        let last = rows.last();
        assert(last == rows[rows.len() - 1]);
        let rest = normalize::compacted(head);
        assert(climbs(head, low, top)) by {
            assert forall|i: int| 0 <= i < head.len() implies low <= (#[trigger] head[i]).address
                <= top by {
                assert(head[i] == rows[i]);
            }
            assert forall|i: int, j: int| 0 <= i <= j < head.len() implies (
            #[trigger] head[i]).address <= (#[trigger] head[j]).address by {
                assert(head[i] == rows[i] && head[j] == rows[j]);
            }
        }
        lemma_compacted_ascends(head, low, top);
        if head.len() > 0 {
            assert(head.last() == rows[rows.len() - 2]);
            lemma_climbs_on(rest, low, head.last().address, last);
        } else {
            assert(rest.len() == 0);
        }
    }
}

/// The rows of a function lie in its range and ascend by address, and no two
/// neighbours give the same file and line.
pub proof fn law_function_rows(
    entries: Seq<SequencedLine>,
    sequences: Seq<LineSequenceRange>,
    range: AddressRange,
    requested: Option<u64>,
)
    requires
        ascend(entries),
        range.start < range.end,
    ensures
        ({
            let rows = function_rows(entries, sequences, range, requested);
            &&& forall|i: int|
                0 <= i < rows.len() ==> range.spec_contains((#[trigger] rows[i]).address)
            &&& forall|i: int, j: int|
                0 <= i <= j < rows.len() ==> (#[trigger] rows[i]).address <= (
                #[trigger] rows[j]).address
            &&& forall|i: int|
                0 < i < rows.len() ==> !normalize::repeats(#[trigger] rows[i - 1], rows[i])
        }),
{
    let start = rows_below(entries, range.start);
    let end = rows_below(entries, range.end);
    lemma_rows_below(entries, range.start);
    lemma_rows_below(entries, range.end);
    let within = rows_within(entries, range);
    assert forall|i: int| 0 <= i < within.len() implies range.start <= (
    #[trigger] within[i]).entry.address < range.end by {
        assert(within[i] == entries[start + i]);
    }
    assert(ascend(within)) by {
        assert forall|i: int, j: int| 0 <= i <= j < within.len() implies (
        #[trigger] within[i]).entry.address <= (#[trigger] within[j]).entry.address by {
            assert(within[i] == entries[start + i]);
            assert(within[j] == entries[start + j]);
        }
    }
    let selected = selected_sequence(sequences, requested);
    let rows = wanted_rows(within, selected);
    if within.len() > 0 {
        assert(within.last() == within[within.len() - 1]);
        lemma_wanted_rows(within, selected, range.start);
    }
    let whole = match clamped_row(entries, sequences, range, requested, rows) {
        Some(row) => seq![row] + rows,
        None => rows,
    };
    if clamped_row(entries, sequences, range, requested, rows) is Some {
        assert forall|i: int| 0 < i < whole.len() implies whole[i] == rows[i - 1] by {}
    }
    lemma_compacted_ascends(whole, range.start, (range.end - 1) as u64);
    normalize::law_compaction(whole);
}

/// Whether the last of ascending rows at or before an address gives a file and a
/// line.
pub open spec fn gives(rows: Seq<LineEntry>, address: u64, file: FileIndex, line: u32) -> bool {
    exists|k: int|
        0 <= k < rows.len() && (#[trigger] rows[k]).address <= address && rows[k].file == file
            && rows[k].line == line && (k + 1 < rows.len() ==> rows[k + 1].address > address)
}

/// Whether the row at `i` is the last at or before an address that belongs to the
/// wanted sequence.
pub open spec fn is_last_wanted(
    entries: Seq<SequencedLine>,
    wanted: Option<u64>,
    address: u64,
    i: int,
) -> bool {
    &&& 0 <= i < entries.len()
    &&& wanted is None || entries[i].statement_sequence == wanted
    &&& entries[i].entry.address <= address
    &&& forall|j: int|
        i < j < entries.len() && (wanted is None || (#[trigger] entries[j]).statement_sequence
            == wanted) ==> entries[j].entry.address > address
}

proof fn lemma_wanted_gives(rows: Seq<SequencedLine>, wanted: Option<u64>, address: u64, i: int)
    requires
        is_last_wanted(rows, wanted, address, i),
    ensures
        exists|k: int|
            0 <= k < wanted_rows(rows, wanted).len() && (#[trigger] wanted_rows(rows, wanted)[k])
                == rows[i].entry && (k + 1 < wanted_rows(rows, wanted).len() ==> wanted_rows(
                rows,
                wanted,
            )[k + 1].address > address),
    decreases rows.len(),
{
    let head = rows.drop_last();
    let rest = wanted_rows(head, wanted);
    let all = wanted_rows(rows, wanted);
    let n = rows.len() - 1;
    assert(rows.last() == rows[n]);
    if i == n {
        assert(all[rest.len() as int] == rows[i].entry);
    } else {
        assert(is_last_wanted(head, wanted, address, i)) by {
            assert forall|j: int|
                i < j < head.len() && (wanted is None || (
                #[trigger] head[j]).statement_sequence == wanted) implies head[j].entry.address
                > address by {
                assert(head[j] == rows[j]);
            }
        }
        lemma_wanted_gives(head, wanted, address, i);
        let k = choose|k: int|
            0 <= k < rest.len() && (#[trigger] rest[k]) == head[i].entry && (k + 1 < rest.len()
                ==> rest[k + 1].address > address);
        assert(all[k] == rest[k]);
        assert(head[i] == rows[i]);
    }
}

proof fn lemma_wanted_none(rows: Seq<SequencedLine>, wanted: Option<u64>, address: u64)
    requires
        forall|j: int|
            0 <= j < rows.len() && (wanted is None || (#[trigger] rows[j]).statement_sequence
                == wanted) ==> rows[j].entry.address > address,
    ensures
        forall|k: int|
            0 <= k < wanted_rows(rows, wanted).len() ==> (#[trigger] wanted_rows(
                rows,
                wanted,
            )[k]).address > address,
    decreases rows.len(),
{
    if rows.len() > 0 {
        let head = rows.drop_last();
        assert(rows.last() == rows[rows.len() - 1]);
        assert forall|j: int|
            0 <= j < head.len() && (wanted is None || (#[trigger] head[j]).statement_sequence
                == wanted) implies head[j].entry.address > address by {
            assert(head[j] == rows[j]);
        }
        lemma_wanted_none(head, wanted, address);
        let rest = wanted_rows(head, wanted);
        let all = wanted_rows(rows, wanted);
        assert forall|k: int| 0 <= k < all.len() implies (#[trigger] all[k]).address > address by {
            if k < rest.len() {
                assert(all[k] == rest[k]);
            }
        }
    }
}

proof fn lemma_last_wanted(rows: Seq<SequencedLine>, wanted: Option<u64>, address: u64, i: int)
    requires
        is_last_wanted(rows, wanted, address, i),
        forall|j: int| 0 <= j < rows.len() ==> (#[trigger] rows[j]).entry.address <= address,
    ensures
        last_wanted(rows, wanted) == Some(rows[i].entry),
    decreases rows.len(),
{
    let n = rows.len() - 1;
    assert(rows.last() == rows[n]);
    if i < n {
        let head = rows.drop_last();
        assert(is_last_wanted(head, wanted, address, i)) by {
            assert forall|j: int|
                i < j < head.len() && (wanted is None || (
                #[trigger] head[j]).statement_sequence == wanted) implies head[j].entry.address
                > address by {
                assert(head[j] == rows[j]);
            }
        }
        assert forall|j: int| 0 <= j < head.len() implies (#[trigger] head[j]).entry.address
            <= address by {
            assert(head[j] == rows[j]);
        }
        lemma_last_wanted(head, wanted, address, i);
        assert(head[i] == rows[i]);
    }
}

/// What rows give stays the same once they are compacted.
proof fn lemma_compacted_gives(rows: Seq<LineEntry>, low: u64, top: u64, address: u64, i: int)
    requires
        climbs(rows, low, top),
        0 <= i < rows.len(),
        rows[i].address <= address,
        i + 1 < rows.len() ==> rows[i + 1].address > address,
    ensures
        gives(normalize::compacted(rows), address, rows[i].file, rows[i].line),
{
    let kept = normalize::compacted(rows);
    let starts = normalize::lemma_compacted_starts(rows);
    let k = lemma_group_of(starts, rows.len() as int, i, starts.len() as int);
    assert(kept[k].file == rows[i].file && kept[k].line == rows[i].line);
    assert(rows[starts[k]].address <= rows[i].address);
    if k + 1 < kept.len() {
        assert(starts[k + 1] > i);
        assert(rows[i + 1].address <= rows[starts[k + 1]].address);
    }
}

/// The last of ascending places, of the first `count`, that is not behind `i`.
proof fn lemma_group_of(starts: Seq<int>, len: int, i: int, count: int) -> (k: int)
    requires
        0 < count <= starts.len(),
        starts[0] == 0,
        0 <= i < len,
        forall|a: int, b: int|
            0 <= a < b < starts.len() ==> (#[trigger] starts[a]) < (#[trigger] starts[b]),
        count < starts.len() ==> starts[count] > i,
    ensures
        0 <= k < count,
        starts[k] <= i,
        k + 1 < starts.len() ==> starts[k + 1] > i,
    decreases count,
{
    if starts[count - 1] <= i {
        count - 1
    } else {
        lemma_group_of(starts, len, i, count - 1)
    }
}

/// The sequence that is asked for, if there is one that begins there.
pub open spec fn found_sequence(sequences: Seq<LineSequenceRange>, requested: Option<u64>) -> Option<
    u64,
> {
    if requested is Some && exists|s: int|
        0 <= s < sequences.len() && (#[trigger] sequences[s]).statement_sequence == requested {
        requested
    } else {
        None
    }
}

/// Whether the sequence at `s` is the first that covers an address.
pub open spec fn is_first_covering(
    sequences: Seq<LineSequenceRange>,
    address: u64,
    s: int,
) -> bool {
    &&& 0 <= s < sequences.len()
    &&& sequences[s].range.start <= address < sequences[s].range.end
    &&& forall|q: int|
        0 <= q < s ==> !((#[trigger] sequences[q]).range.start <= address
            < sequences[q].range.end)
}

/// The sequence that is followed into a range: the one that is asked for, or else
/// the first that covers the start of the range.
pub open spec fn followed_sequence(
    sequences: Seq<LineSequenceRange>,
    requested: Option<u64>,
    start: u64,
) -> Option<u64> {
    if found_sequence(sequences, requested) is Some {
        requested
    } else if exists|s: int| is_first_covering(sequences, start, s) {
        sequences[choose|s: int| is_first_covering(sequences, start, s)].statement_sequence
    } else {
        None
    }
}

proof fn lemma_covering(sequences: Seq<LineSequenceRange>, address: u64) -> (s: int)
    ensures
        0 <= s <= sequences.len(),
        s < sequences.len() ==> is_first_covering(sequences, address, s) && covering_sequence(
            sequences,
            address,
        ) == sequences[s].statement_sequence,
        s == sequences.len() ==> covering_sequence(sequences, address) is None && forall|q: int|
            0 <= q < sequences.len() ==> !((#[trigger] sequences[q]).range.start <= address
                < sequences[q].range.end),
    decreases sequences.len(),
{
    if sequences.len() == 0 || sequences[0].range.spec_contains(address) {
        0
    } else {
        let rest = sequences.drop_first();
        let s = lemma_covering(rest, address);
        assert forall|q: int| 0 <= q < s + 1 && q < sequences.len() implies !((
        #[trigger] sequences[q]).range.start <= address < sequences[q].range.end) || q == s
            + 1 by {
            if q > 0 {
                assert(rest[q - 1] == sequences[q]);
            }
        }
        if s < rest.len() {
            assert(rest[s] == sequences[s + 1]);
        }
        s + 1
    }
}

/// The rows of a function give, at each address of its range, what the rows of the
/// unit give there. The last row of the selected sequence at or before the address
/// is followed, where it lies in the range. Where there is none yet, and the
/// sequence covers the start of the range, the last row before the range stands
/// for it; else nothing is given.
pub proof fn law_function_rows_follow_the_unit(
    entries: Seq<SequencedLine>,
    sequences: Seq<LineSequenceRange>,
    range: AddressRange,
    requested: Option<u64>,
    address: u64,
)
    requires
        ascend(entries),
        range.start <= address < range.end,
    ensures
        ({
            let rows = function_rows(entries, sequences, range, requested);
            let selected = found_sequence(sequences, requested);
            &&& forall|i: int|
                #[trigger] is_last_wanted(entries, selected, address, i) && range.start
                    <= entries[i].entry.address ==> gives(
                    rows,
                    address,
                    entries[i].entry.file,
                    entries[i].entry.line,
                )
            &&& (forall|i: int|
                0 <= i < entries.len() && (selected is None || (
                #[trigger] entries[i]).statement_sequence == selected) ==> entries[i].entry.address
                    < range.start || address < entries[i].entry.address) ==> {
                let covered = exists|s: int|
                    0 <= s < sequences.len() && (selected is None || (
                    #[trigger] sequences[s]).statement_sequence == selected)
                        && sequences[s].range.start <= range.start < sequences[s].range.end;
                let followed = followed_sequence(sequences, requested, range.start);
                &&& forall|i: int|
                    covered && range.start > 0 && #[trigger] is_last_wanted(
                        entries,
                        followed,
                        (range.start - 1) as u64,
                        i,
                    ) ==> gives(rows, address, entries[i].entry.file, entries[i].entry.line)
                &&& !covered ==> forall|k: int|
                    0 <= k < rows.len() ==> (#[trigger] rows[k]).address > address
            }
        }),
{
    let start = rows_below(entries, range.start);
    let end = rows_below(entries, range.end);
    lemma_rows_below(entries, range.start);
    lemma_rows_below(entries, range.end);
    let within = rows_within(entries, range);
    assert(start <= end) by {
        if end < start {
            assert(entries[end as int].entry.address < range.start);
        }
    }
    assert forall|i: int| 0 <= i < within.len() implies range.start <= (
    #[trigger] within[i]).entry.address < range.end && within[i] == entries[start + i] by {
        assert(within[i] == entries[start + i]);
    }
    assert(ascend(within)) by {
        assert forall|i: int, j: int| 0 <= i <= j < within.len() implies (
        #[trigger] within[i]).entry.address <= (#[trigger] within[j]).entry.address by {
            assert(within[i] == entries[start + i]);
            assert(within[j] == entries[start + j]);
        }
    }
    let selected = selected_sequence(sequences, requested);
    assert(found_sequence(sequences, requested) == selected);
    let rows = wanted_rows(within, selected);
    if within.len() > 0 {
        assert(within.last() == within[within.len() - 1]);
        lemma_wanted_rows(within, selected, range.start);
    }
    let clamped = clamped_row(entries, sequences, range, requested, rows);
    let whole = match clamped {
        Some(row) => seq![row] + rows,
        None => rows,
    };
    let shift: int = if clamped is Some {
        1
    } else {
        0
    };
    assert forall|i: int| 0 <= i < rows.len() implies #[trigger] whole[i + shift] == rows[i] by {}
    let top = (range.end - 1) as u64;
    assert(climbs(whole, range.start, top));
    let written = function_rows(entries, sequences, range, requested);
    assert(written == normalize::compacted(whole));
    assert forall|i: int| #[trigger]
        is_last_wanted(entries, selected, address, i) && range.start
            <= entries[i].entry.address implies gives(
        written,
        address,
        entries[i].entry.file,
        entries[i].entry.line,
    ) by {
        let at = i - start;
        assert(i >= start && i < end);
        assert(within[at] == entries[i]);
        assert(is_last_wanted(within, selected, address, at)) by {
            assert forall|j: int|
                at < j < within.len() && (selected is None || (
                #[trigger] within[j]).statement_sequence == selected) implies within[j].entry.address
                > address by {
                assert(within[j] == entries[start + j]);
            }
        }
        lemma_wanted_gives(within, selected, address, at);
        let k = choose|k: int|
            0 <= k < rows.len() && (#[trigger] rows[k]) == within[at].entry && (k + 1 < rows.len()
                ==> rows[k + 1].address > address);
        assert(whole[k + shift] == rows[k]);
        if k + 1 < rows.len() {
            assert(whole[k + 1 + shift] == rows[k + 1]);
        }
        lemma_compacted_gives(whole, range.start, top, address, k + shift);
    }
    if forall|i: int|
        0 <= i < entries.len() && (selected is None || (#[trigger] entries[i]).statement_sequence
            == selected) ==> entries[i].entry.address < range.start || address
            < entries[i].entry.address {
        assert forall|j: int|
            0 <= j < within.len() && (selected is None || (
            #[trigger] within[j]).statement_sequence == selected) implies within[j].entry.address
            > address by {
            assert(within[j] == entries[start + j]);
        }
        lemma_wanted_none(within, selected, address);
        let covered = exists|s: int|
            0 <= s < sequences.len() && (selected is None || (
            #[trigger] sequences[s]).statement_sequence == selected) && sequences[s].range.start
                <= range.start < sequences[s].range.end;
        assert(covered == is_covered(sequences, selected, range.start)) by {
            if covered {
                let s = choose|s: int|
                    0 <= s < sequences.len() && (selected is None || (
                    #[trigger] sequences[s]).statement_sequence == selected)
                        && sequences[s].range.start <= range.start < sequences[s].range.end;
                assert(is_wanted(selected, sequences[s].statement_sequence));
            }
        }
        let followed = clamping_sequence(sequences, requested, range.start);
        assert(followed == followed_sequence(sequences, requested, range.start)) by {
            let first = lemma_covering(sequences, range.start);
            if exists|s: int| is_first_covering(sequences, range.start, s) {
                let s = choose|s: int| is_first_covering(sequences, range.start, s);
                assert(sequences[s].range.start <= range.start < sequences[s].range.end);
                assert(s == first);
            } else if first < sequences.len() {
                assert(is_first_covering(sequences, range.start, first));
            }
        }
        assert forall|i: int|
            covered && range.start > 0 && #[trigger] is_last_wanted(
                entries,
                followed,
                (range.start - 1) as u64,
                i,
            ) implies gives(written, address, entries[i].entry.file, entries[i].entry.line) by {
            let before = entries.subrange(0, start as int);
            let last = (range.start - 1) as u64;
            assert(i < start);
            assert(before[i] == entries[i]);
            assert(is_last_wanted(before, followed, last, i)) by {
                assert forall|j: int|
                    i < j < before.len() && (followed is None || (
                    #[trigger] before[j]).statement_sequence == followed) implies before[j].entry.address
                    > last by {
                    assert(before[j] == entries[j]);
                }
            }
            assert forall|j: int| 0 <= j < before.len() implies (#[trigger] before[j]).entry.address
                <= last by {
                assert(before[j] == entries[j]);
            }
            lemma_last_wanted(before, followed, last, i);
            assert(rows.len() > 0 ==> rows[0].address > address);
            assert(clamped == Some(LineEntry { address: range.start, ..entries[i].entry }));
            if rows.len() > 0 {
                assert(whole[0 + shift] == rows[0]);
            }
            lemma_compacted_gives(whole, range.start, top, address, 0);
        }
        if !covered {
            let starts = normalize::lemma_compacted_starts(whole);
            assert(clamped is None);
            assert forall|k: int| 0 <= k < written.len() implies (#[trigger] written[k]).address
                > address by {
                assert(written[k] == rows[starts[k]]);
            }
        }
    }
}

impl UnitLines {
    /// Whether the rows ascend by address.
    pub open spec fn wf(&self) -> bool {
        ascend(self.entries@)
    }

    /// Finds the number of rows below an address.
    fn count_below(&self, address: u64) -> (count: usize)
        requires
            self.wf(),
        ensures
            count == rows_below(self.entries@, address),
    {
        let mut low: usize = 0;
        let mut high: usize = self.entries.len();
        proof {
            lemma_rows_below(self.entries@, address);
        }
        while low < high
            invariant
                self.wf(),
                low <= rows_below(self.entries@, address) <= high <= self.entries@.len(),
                forall|i: int|
                    0 <= i < self.entries@.len() ==> ((
                    #[trigger] self.entries@[i]).entry.address < address <==> i < rows_below(
                        self.entries@,
                        address,
                    )),
            decreases high - low,
        {
            let middle: usize = low + (high - low) / 2;
            if self.entries[middle].entry.address < address {
                low = middle + 1;
            } else {
                high = middle;
            }
        }
        low
    }

    fn has_sequence(&self, offset: u64) -> (exists: bool)
        ensures
            exists == sequence_exists(self.sequences@, offset),
    {
        let mut i: usize = 0;
        while i < self.sequences.len()
            invariant
                i <= self.sequences@.len(),
                forall|k: int|
                    0 <= k < i ==> (#[trigger] self.sequences@[k]).statement_sequence != Some(
                        offset,
                    ),
            decreases self.sequences@.len() - i,
        {
            if let Some(found) = self.sequences[i].statement_sequence {
                if found == offset {
                    assert(self.sequences@[i as int].statement_sequence == Some(offset));
                    return true;
                }
            }
            i = i + 1;
        }
        false
    }

    fn find_covering(&self, address: u64) -> (sequence: Option<u64>)
        ensures
            sequence == covering_sequence(self.sequences@, address),
    {
        let ghost whole = self.sequences@;
        let mut i: usize = 0;
        assert(whole.skip(0) =~= whole);
        while i < self.sequences.len()
            invariant
                whole == self.sequences@,
                i <= whole.len(),
                covering_sequence(whole, address) == covering_sequence(
                    whole.skip(i as int),
                    address,
                ),
            decreases whole.len() - i,
        {
            assert(whole.skip(i as int)[0] == whole[i as int]);
            assert(whole.skip(i as int).drop_first() =~= whole.skip(i + 1));
            if self.sequences[i].range.contains(address) {
                return self.sequences[i].statement_sequence;
            }
            i = i + 1;
        }
        None
    }

    fn covers(&self, wanted: Option<u64>, address: u64) -> (covered: bool)
        ensures
            covered == is_covered(self.sequences@, wanted, address),
    {
        let mut i: usize = 0;
        while i < self.sequences.len()
            invariant
                i <= self.sequences@.len(),
                forall|k: int|
                    0 <= k < i ==> !(is_wanted(
                        wanted,
                        (#[trigger] self.sequences@[k]).statement_sequence,
                    ) && self.sequences@[k].range.spec_contains(address)),
            decreases self.sequences@.len() - i,
        {
            let sequence: LineSequenceRange = self.sequences[i];
            if matches_sequence(wanted, sequence.statement_sequence) && sequence.range.contains(
                address,
            ) {
                assert(is_wanted(wanted, self.sequences@[i as int].statement_sequence));
                return true;
            }
            i = i + 1;
        }
        false
    }

    fn find_last(&self, count: usize, wanted: Option<u64>) -> (row: Option<LineEntry>)
        requires
            count <= self.entries@.len(),
        ensures
            row == last_wanted(self.entries@.subrange(0, count as int), wanted),
    {
        let ghost whole = self.entries@;
        let mut left: usize = count;
        while left > 0
            invariant
                whole == self.entries@,
                left <= count <= whole.len(),
                last_wanted(whole.subrange(0, count as int), wanted) == last_wanted(
                    whole.subrange(0, left as int),
                    wanted,
                ),
            decreases left,
        {
            left = left - 1;
            let row: SequencedLine = self.entries[left];
            assert(whole.subrange(0, left + 1).drop_last() =~= whole.subrange(0, left as int));
            if matches_sequence(wanted, row.statement_sequence) {
                return Some(row.entry);
            }
        }
        None
    }

    fn collect_wanted(&self, start: usize, end: usize, wanted: Option<u64>) -> (rows: Vec<
        LineEntry,
    >)
        requires
            start <= end <= self.entries@.len(),
        ensures
            rows@ == wanted_rows(self.entries@.subrange(start as int, end as int), wanted),
    {
        let ghost whole = self.entries@;
        let mut rows: Vec<LineEntry> = Vec::new();
        let mut i: usize = start;
        assert(rows@ =~= wanted_rows(whole.subrange(start as int, start as int), wanted));
        while i < end
            invariant
                whole == self.entries@,
                start <= i <= end <= whole.len(),
                rows@ == wanted_rows(whole.subrange(start as int, i as int), wanted),
            decreases end - i,
        {
            let row: SequencedLine = self.entries[i];
            assert(whole.subrange(start as int, i + 1).drop_last() =~= whole.subrange(
                start as int,
                i as int,
            ));
            if matches_sequence(wanted, row.statement_sequence) {
                rows.push(row.entry);
            }
            i = i + 1;
        }
        rows
    }

    /// Returns the rows of a function, and whether it asked for a sequence
    /// that does not exist while other sequences have rows for it.
    ///
    /// A row before the range stands for its start where a sequence covers the
    /// start and no row lies on it.
    pub fn for_range(&self, range: AddressRange, requested_sequence: Option<u64>) -> (result: (
        Vec<LineEntry>,
        bool,
    ))
        requires
            self.wf(),
        ensures
            result.0@ == function_rows(
                self.entries@,
                self.sequences@,
                range,
                requested_sequence,
            ),
            result.1 == is_invalid_request(self.sequences@, requested_sequence, result.0@),
    {
        let selected: Option<u64> = match requested_sequence {
            Some(offset) => if self.has_sequence(offset) {
                Some(offset)
            } else {
                None
            },
            None => None,
        };
        let start: usize = self.count_below(range.start);
        let end: usize = self.count_below(range.end);
        proof {
            lemma_rows_below(self.entries@, range.start);
            lemma_rows_below(self.entries@, range.end);
        }
        let mut rows: Vec<LineEntry> = if start <= end {
            self.collect_wanted(start, end, selected)
        } else {
            Vec::new()
        };
        let ghost plain = wanted_rows(rows_within(self.entries@, range), selected);
        assert(rows@ =~= plain);
        if self.covers(selected, range.start) && (rows.len() == 0 || rows[0].address
            > range.start) {
            let clamping: Option<u64> = match selected {
                Some(offset) => Some(offset),
                None => self.find_covering(range.start),
            };
            if let Some(row) = self.find_last(start, clamping) {
                rows.insert(
                    0,
                    LineEntry { address: range.start, file: row.file, line: row.line },
                );
                assert(rows@ =~= seq![
                    LineEntry { address: range.start, file: row.file, line: row.line },
                ] + plain);
            }
        }
        compact_line_rows(&mut rows);
        let invalid: bool = requested_sequence.is_some() && selected.is_none() && rows.len() > 0;
        (rows, invalid)
    }
}

/// Returns whether a sequence is the wanted one, if one is wanted.
fn matches_sequence(wanted: Option<u64>, sequence: Option<u64>) -> (wanted_one: bool)
    ensures
        wanted_one == is_wanted(wanted, sequence),
{
    match wanted {
        None => true,
        Some(offset) => match sequence {
            Some(found) => found == offset,
            None => false,
        },
    }
}

} // verus!
