//! Records of units, put together from what the parser reads.
use vstd::prelude::*;
use vstd::string::*;

use crate::convert::dwarf::model::{
    Address, Entry, FileName, LineProgram, LineRow, LineSequence, ListedRange, Number, Ranges,
    Reference, Target, Text, Unit, Units, DW_TAG_INLINED_SUBROUTINE, DW_TAG_SUBPROGRAM,
};
use crate::convert::dwarf::program::is_safely_run;
use crate::convert::dwarf::reading;
use crate::convert::dwarf::reading::{
    Bound, EntryHead, EntryHeads, FileView, LineHeader, PathView, ProgramPath, ProgramRow,
    ProgramSequence, RangeList, RangesView, SequenceView, TextView, UnitData, UnitHead, Value,
};
use crate::convert::dwarf::source;
use crate::convert::dwarf::source::{ContentsView, DwarfData};

verus! {

/// Code of `DW_AT_name`.
pub const DW_AT_NAME: u16 = 0x03;

/// Code of `DW_AT_abstract_origin`.
pub const DW_AT_ABSTRACT_ORIGIN: u16 = 0x31;

/// Code of `DW_AT_decl_file`.
pub const DW_AT_DECL_FILE: u16 = 0x3a;

/// Code of `DW_AT_decl_line`.
pub const DW_AT_DECL_LINE: u16 = 0x3b;

/// Code of `DW_AT_specification`.
pub const DW_AT_SPECIFICATION: u16 = 0x47;

/// Code of `DW_AT_call_file`.
pub const DW_AT_CALL_FILE: u16 = 0x58;

/// Code of `DW_AT_call_line`.
pub const DW_AT_CALL_LINE: u16 = 0x59;

/// Code of `DW_AT_linkage_name`.
pub const DW_AT_LINKAGE_NAME: u16 = 0x6e;

/// Code of `DW_AT_call_return_pc`.
pub const DW_AT_CALL_RETURN_PC: u16 = 0x7d;

/// Code of `DW_AT_call_origin`.
pub const DW_AT_CALL_ORIGIN: u16 = 0x7f;

/// Code of `DW_AT_MIPS_linkage_name`.
pub const DW_AT_MIPS_LINKAGE_NAME: u16 = 0x2007;

/// Code of `DW_AT_LLVM_stmt_sequence`.
pub const DW_AT_LLVM_STMT_SEQUENCE: u16 = 0x3e0c;

/// An attribute read as a number.
pub open spec fn number_of(value: Option<Value>) -> Option<Number> {
    match value {
        None => None,
        Some(Value::FileIndex(index)) => Some(Number::FileIndex(index)),
        Some(Value::SectionOffset(offset)) => Some(Number::SectionOffset(offset as u64)),
        Some(Value::LineOffset(offset)) => Some(Number::LineOffset(offset as u64)),
        Some(Value::Unsigned(number)) => Some(Number::Unsigned(number)),
        Some(_) => Some(Number::Other),
    }
}

/// An attribute read as a reference.
pub open spec fn reference_of(value: Option<Value>) -> Option<Reference> {
    match value {
        None => None,
        Some(Value::UnitReference(offset)) => Some(Reference::Unit(offset)),
        Some(Value::InfoReference(offset)) => Some(Reference::DebugInfo(offset)),
        Some(Value::SupplementaryReference(offset)) => Some(Reference::Supplementary(offset)),
        Some(_) => Some(Reference::Other),
    }
}

fn to_number(value: Option<Value>) -> (number: Option<Number>)
    ensures
        number == number_of(value),
{
    match value {
        None => None,
        Some(Value::FileIndex(index)) => Some(Number::FileIndex(index)),
        Some(Value::SectionOffset(offset)) => Some(Number::SectionOffset(offset as u64)),
        Some(Value::LineOffset(offset)) => Some(Number::LineOffset(offset as u64)),
        Some(Value::Unsigned(number)) => Some(Number::Unsigned(number)),
        Some(_) => Some(Number::Other),
    }
}

fn to_reference(value: Option<Value>) -> (reference: Option<Reference>)
    ensures
        reference == reference_of(value),
{
    match value {
        None => None,
        Some(Value::UnitReference(offset)) => Some(Reference::Unit(offset)),
        Some(Value::InfoReference(offset)) => Some(Reference::DebugInfo(offset)),
        Some(Value::SupplementaryReference(offset)) => Some(Reference::Supplementary(offset)),
        Some(_) => Some(Reference::Other),
    }
}

/// Whether the ranges of an entry of a kind are read.
pub open spec fn has_ranges(tag: u16) -> bool {
    tag == DW_TAG_SUBPROGRAM || tag == DW_TAG_INLINED_SUBROUTINE
}

/// No ranges.
pub open spec fn no_ranges() -> RangesView {
    RangesView::Listed { ranges: Seq::<ListedRange>::empty(), failure: None }
}

/// What is said of the ranges of an entry that overflow.
pub const RANGE_OVERFLOW: &'static str = "address range overflows";

/// The ranges of an entry of the unit at an offset. Only those of functions and
/// inlined calls are read.
pub open spec fn entry_ranges(contents: ContentsView, unit: usize, head: EntryHead) -> RangesView {
    if !has_ranges(head.tag) {
        no_ranges()
    } else if !reading::ranges_fit(contents, unit, head.offset) {
        RangesView::Failed(RANGE_OVERFLOW@)
    } else {
        reading::dwarf_ranges(contents, usize::MAX as nat, unit, head.offset)
    }
}

/// Whether a record says what the parser reads of an entry of the unit at an
/// offset.
pub open spec fn says_entry(
    entry: Entry,
    contents: ContentsView,
    unit: usize,
    head: EntryHead,
) -> bool {
    let limit = usize::MAX as nat;
    let offset = head.offset;
    &&& entry.offset == offset
    &&& entry.depth == head.depth
    &&& entry.tag == head.tag
    &&& reading::text_view(entry.linkage_name) == reading::dwarf_text(
        contents,
        limit,
        unit,
        offset,
        DW_AT_LINKAGE_NAME,
    )
    &&& reading::text_view(entry.mips_linkage_name) == reading::dwarf_text(
        contents,
        limit,
        unit,
        offset,
        DW_AT_MIPS_LINKAGE_NAME,
    )
    &&& reading::text_view(entry.name) == reading::dwarf_text(
        contents,
        limit,
        unit,
        offset,
        DW_AT_NAME,
    )
    &&& entry.abstract_origin == reference_of(
        reading::dwarf_value(contents, limit, unit, offset, DW_AT_ABSTRACT_ORIGIN),
    )
    &&& entry.specification == reference_of(
        reading::dwarf_value(contents, limit, unit, offset, DW_AT_SPECIFICATION),
    )
    &&& entry.decl_file == number_of(
        reading::dwarf_value(contents, limit, unit, offset, DW_AT_DECL_FILE),
    )
    &&& entry.decl_line == number_of(
        reading::dwarf_value(contents, limit, unit, offset, DW_AT_DECL_LINE),
    )
    &&& entry.call_file == number_of(
        reading::dwarf_value(contents, limit, unit, offset, DW_AT_CALL_FILE),
    )
    &&& entry.call_line == number_of(
        reading::dwarf_value(contents, limit, unit, offset, DW_AT_CALL_LINE),
    )
    &&& reading::address_view(entry.call_return_pc) == reading::dwarf_address(
        contents,
        limit,
        unit,
        offset,
        DW_AT_CALL_RETURN_PC,
    )
    &&& entry.call_origin == reference_of(
        reading::dwarf_value(contents, limit, unit, offset, DW_AT_CALL_ORIGIN),
    )
    &&& entry.statement_sequence == number_of(
        reading::dwarf_value(contents, limit, unit, offset, DW_AT_LLVM_STMT_SEQUENCE),
    )
    &&& entry.ranges@ == entry_ranges(contents, unit, head)
}

/// The attributes of some entries of a unit, attribute by attribute.
struct Columns {
    linkage_name: Vec<Option<Text>>,
    mips_linkage_name: Vec<Option<Text>>,
    name: Vec<Option<Text>>,
    abstract_origin: Vec<Option<Value>>,
    specification: Vec<Option<Value>>,
    decl_file: Vec<Option<Value>>,
    decl_line: Vec<Option<Value>>,
    call_file: Vec<Option<Value>>,
    call_line: Vec<Option<Value>>,
    call_return_pc: Vec<Option<Address>>,
    call_origin: Vec<Option<Value>>,
    statement_sequence: Vec<Option<Value>>,
}

spec fn texts_match(
    texts: Seq<Option<Text>>,
    contents: ContentsView,
    unit: usize,
    offsets: Seq<usize>,
    attribute: u16,
) -> bool {
    &&& texts.len() == offsets.len()
    &&& forall|i: int|
        0 <= i < offsets.len() ==> reading::text_view(#[trigger] texts[i]) == reading::dwarf_text(
            contents,
            usize::MAX as nat,
            unit,
            offsets[i],
            attribute,
        )
}

spec fn values_match(
    values: Seq<Option<Value>>,
    contents: ContentsView,
    unit: usize,
    offsets: Seq<usize>,
    attribute: u16,
) -> bool {
    &&& values.len() == offsets.len()
    &&& forall|i: int|
        0 <= i < offsets.len() ==> #[trigger] values[i] == reading::dwarf_value(
            contents,
            usize::MAX as nat,
            unit,
            offsets[i],
            attribute,
        )
}

spec fn addresses_match(
    addresses: Seq<Option<Address>>,
    contents: ContentsView,
    unit: usize,
    offsets: Seq<usize>,
    attribute: u16,
) -> bool {
    &&& addresses.len() == offsets.len()
    &&& forall|i: int|
        0 <= i < offsets.len() ==> reading::address_view(#[trigger] addresses[i])
            == reading::dwarf_address(
            contents,
            usize::MAX as nat,
            unit,
            offsets[i],
            attribute,
        )
}

impl Columns {
    spec fn matches_entries(self, contents: ContentsView, unit: usize, offsets: Seq<usize>) -> bool {
        &&& texts_match(self.linkage_name@, contents, unit, offsets, DW_AT_LINKAGE_NAME)
        &&& texts_match(self.mips_linkage_name@, contents, unit, offsets, DW_AT_MIPS_LINKAGE_NAME)
        &&& texts_match(self.name@, contents, unit, offsets, DW_AT_NAME)
        &&& values_match(self.abstract_origin@, contents, unit, offsets, DW_AT_ABSTRACT_ORIGIN)
        &&& values_match(self.specification@, contents, unit, offsets, DW_AT_SPECIFICATION)
        &&& values_match(self.decl_file@, contents, unit, offsets, DW_AT_DECL_FILE)
        &&& values_match(self.decl_line@, contents, unit, offsets, DW_AT_DECL_LINE)
        &&& values_match(self.call_file@, contents, unit, offsets, DW_AT_CALL_FILE)
        &&& values_match(self.call_line@, contents, unit, offsets, DW_AT_CALL_LINE)
        &&& addresses_match(self.call_return_pc@, contents, unit, offsets, DW_AT_CALL_RETURN_PC)
        &&& values_match(self.call_origin@, contents, unit, offsets, DW_AT_CALL_ORIGIN)
        &&& values_match(
            self.statement_sequence@,
            contents,
            unit,
            offsets,
            DW_AT_LLVM_STMT_SEQUENCE,
        )
    }

    fn read(unit: &UnitData<'_, '_>, offsets: &[usize]) -> (columns: Self)
        ensures
            columns.matches_entries(unit.place().contents, unit.place().offset, offsets@),
    {
        Columns {
            linkage_name: unit.read_texts(offsets, DW_AT_LINKAGE_NAME),
            mips_linkage_name: unit.read_texts(offsets, DW_AT_MIPS_LINKAGE_NAME),
            name: unit.read_texts(offsets, DW_AT_NAME),
            abstract_origin: unit.read_values(offsets, DW_AT_ABSTRACT_ORIGIN),
            specification: unit.read_values(offsets, DW_AT_SPECIFICATION),
            decl_file: unit.read_values(offsets, DW_AT_DECL_FILE),
            decl_line: unit.read_values(offsets, DW_AT_DECL_LINE),
            call_file: unit.read_values(offsets, DW_AT_CALL_FILE),
            call_line: unit.read_values(offsets, DW_AT_CALL_LINE),
            call_return_pc: unit.read_addresses(offsets, DW_AT_CALL_RETURN_PC),
            call_origin: unit.read_values(offsets, DW_AT_CALL_ORIGIN),
            statement_sequence: unit.read_values(offsets, DW_AT_LLVM_STMT_SEQUENCE),
        }
    }

    /// Takes the last entry off the columns.
    fn pop(
        &mut self,
        head: EntryHead,
        ranges: Ranges,
        Ghost(contents): Ghost<ContentsView>,
        Ghost(unit): Ghost<usize>,
        Ghost(offsets): Ghost<Seq<usize>>,
    ) -> (entry: Entry)
        requires
            offsets.len() > 0,
            offsets.last() == head.offset,
            old(self).matches_entries(contents, unit, offsets),
            ranges@ == entry_ranges(contents, unit, head),
        ensures
            final(self).matches_entries(contents, unit, offsets.drop_last()),
            says_entry(entry, contents, unit, head),
    {
        Entry {
            offset: head.offset,
            depth: head.depth,
            tag: head.tag,
            linkage_name: self.linkage_name.pop().unwrap(),
            mips_linkage_name: self.mips_linkage_name.pop().unwrap(),
            name: self.name.pop().unwrap(),
            abstract_origin: to_reference(self.abstract_origin.pop().unwrap()),
            specification: to_reference(self.specification.pop().unwrap()),
            decl_file: to_number(self.decl_file.pop().unwrap()),
            decl_line: to_number(self.decl_line.pop().unwrap()),
            call_file: to_number(self.call_file.pop().unwrap()),
            call_line: to_number(self.call_line.pop().unwrap()),
            call_return_pc: self.call_return_pc.pop().unwrap(),
            call_origin: to_reference(self.call_origin.pop().unwrap()),
            statement_sequence: to_number(self.statement_sequence.pop().unwrap()),
            ranges,
        }
    }
}

fn is_list_overflowing(unit: &UnitData<'_, '_>, index: usize) -> (overflows: bool)
    ensures
        overflows == reading::list_overflows(unit.place().contents, unit.place().offset, index),
{
    let base: usize = unit.list_base();
    let step: usize = match index.checked_mul(unit.word_size() as usize) {
        Some(step) => step,
        None => return false,
    };
    match unit.read_list_offset(base, step) {
        Some(offset) => base.checked_add(offset).is_none(),
        None => false,
    }
}

fn are_ranges_fitting(unit: &UnitData<'_, '_>, offset: usize) -> (fit: bool)
    ensures
        fit == reading::ranges_fit(unit.place().contents, unit.place().offset, offset),
{
    let ghost contents = unit.place().contents;
    let ghost at = unit.place().offset;
    let bounds: Vec<Bound> = unit.read_bounds(offset);
    let ghost views = reading::bound_views(bounds@);
    let mut low: Option<u64> = None;
    let mut size: Option<u64> = None;
    let mut i: usize = 0;
    while i < bounds.len()
        invariant
            contents == unit.place().contents,
            at == unit.place().offset,
            views == reading::bound_views(bounds@),
            i <= bounds@.len(),
            reading::ranges_fit(contents, at, offset) == reading::bounds_fit(
                views,
                i as int,
                low,
                size,
                contents,
                at,
            ),
        decreases bounds@.len() - i,
    {
        let bound: &Bound = &bounds[i];
        assert(views[i as int] == bound@);
        if bound.name == reading::DW_AT_LOW_PC {
            match &bound.address {
                Address::Known(address) => {
                    low = Some(*address);
                },
                _ => return true,
            }
        } else if bound.name == reading::DW_AT_HIGH_PC {
            if bound.size.is_some() {
                size = bound.size;
            } else {
                match &bound.address {
                    Address::Known(_) => {},
                    _ => return true,
                }
            }
        } else if bound.name == reading::DW_AT_RANGES {
            match bound.list {
                None => {},
                Some(RangeList::Offset(_)) => return true,
                Some(RangeList::Index(index)) => return !is_list_overflowing(unit, index),
            }
        }
        i = i + 1;
    }
    match (low, size) {
        (Some(low), Some(size)) => low.checked_add(size).is_some(),
        _ => true,
    }
}

fn read_entry_ranges(unit: &UnitData<'_, '_>, head: EntryHead) -> (ranges: Ranges)
    ensures
        ranges@ == entry_ranges(unit.place().contents, unit.place().offset, head),
{
    if head.tag != DW_TAG_SUBPROGRAM && head.tag != DW_TAG_INLINED_SUBROUTINE {
        let ranges: Vec<ListedRange> = Vec::new();
        assert(ranges@ =~= Seq::<ListedRange>::empty());
        return Ranges::Listed { ranges, failure: None };
    }
    if !are_ranges_fitting(unit, head.offset) {
        return Ranges::Failed(String::from_str(RANGE_OVERFLOW));
    }
    unit.read_ranges(head.offset)
}

/// Whether records say what the parser reads of entries.
pub open spec fn say_entries(
    entries: Seq<Entry>,
    contents: ContentsView,
    unit: usize,
    heads: Seq<EntryHead>,
) -> bool {
    &&& entries.len() == heads.len()
    &&& forall|i: int|
        0 <= i < heads.len() ==> says_entry(#[trigger] entries[i], contents, unit, heads[i])
}

/// Reads entries of a unit.
pub(crate) fn read_entries_at(unit: &UnitData<'_, '_>, heads: &Vec<EntryHead>) -> (entries:
    Vec<Entry>)
    ensures
        say_entries(entries@, unit.place().contents, unit.place().offset, heads@),
{
    let ghost contents = unit.place().contents;
    let ghost at = unit.place().offset;
    let mut offsets: Vec<usize> = Vec::new();
    let mut left: usize = heads.len();
    while left > 0
        invariant
            left <= heads@.len(),
            offsets@.len() == heads@.len() - left,
            forall|i: int|
                0 <= i < offsets@.len() ==> #[trigger] offsets@[i] == heads@[heads@.len() - 1
                    - i].offset,
        decreases left,
    {
        left = left - 1;
        offsets.push(heads[left].offset);
    }
    let mut columns = Columns::read(unit, offsets.as_slice());
    let mut entries: Vec<Entry> = Vec::new();
    let ghost all = offsets@;
    let mut i: usize = 0;
    assert(all.take(all.len() as int) =~= all);
    while i < heads.len()
        invariant
            contents == unit.place().contents,
            at == unit.place().offset,
            i <= heads@.len(),
            all.len() == heads@.len(),
            forall|k: int|
                0 <= k < all.len() ==> #[trigger] all[k] == heads@[heads@.len() - 1 - k].offset,
            columns.matches_entries(contents, at, all.take(all.len() - i)),
            entries@.len() == i,
            forall|k: int|
                0 <= k < i ==> says_entry(#[trigger] entries@[k], contents, at, heads@[k]),
        decreases heads@.len() - i,
    {
        let ghost rest = all.take(all.len() - i);
        assert(rest.last() == all[all.len() - i - 1]);
        assert(rest.drop_last() =~= all.take(all.len() - i - 1));
        let ranges = read_entry_ranges(unit, heads[i]);
        let entry = columns.pop(heads[i], ranges, Ghost(contents), Ghost(at), Ghost(rest));
        entries.push(entry);
        i = i + 1;
    }
    entries
}

/// The place among the files of a line program of the file with an index.
/// Before version five the `listed` files count from one, and zero stands for
/// the file that the unit names, which comes behind them.
pub open spec fn file_place(version: u16, index: u64, listed: nat, known: nat) -> Option<usize> {
    if version <= 4 {
        if index == 0 {
            if listed < known {
                Some(listed as usize)
            } else {
                None
            }
        } else if index <= listed {
            Some((index - 1) as usize)
        } else {
            None
        }
    } else if index < listed {
        Some(index as usize)
    } else {
        None
    }
}

/// A row of a line program with the place of its file.
pub open spec fn placed_row(row: ProgramRow, version: u16, listed: nat, known: nat) -> LineRow {
    LineRow {
        address: row.address,
        end_sequence: row.end_sequence,
        file_index: row.file_index,
        file: file_place(version, row.file_index, listed, known),
        line: row.line,
    }
}

/// Whether a record says what the parser reads of a sequence.
pub open spec fn says_sequence(
    sequence: LineSequence,
    view: SequenceView,
    version: u16,
    listed: nat,
    known: nat,
) -> bool {
    &&& sequence.start == view.start
    &&& sequence.end == view.end
    &&& reading::optional_text(sequence.failure) == view.failure
    &&& sequence.rows@ == view.rows.map_values(
        |row: ProgramRow| placed_row(row, version, listed, known),
    )
}

/// Whether records say what the parser reads of sequences.
pub open spec fn say_sequences(
    sequences: Result<Vec<LineSequence>, String>,
    views: Result<Seq<SequenceView>, Seq<char>>,
    version: u16,
    listed: nat,
    known: nat,
) -> bool {
    match views {
        Err(text) => sequences matches Err(source) && source@ == text,
        Ok(views) => sequences matches Ok(sequences) && sequences@.len() == views.len() && (forall|
            i: int,
        |
            0 <= i < views.len() ==> says_sequence(
                #[trigger] sequences@[i],
                views[i],
                version,
                listed,
                known,
            )),
    }
}

/// What is said of a line program that takes the line back by too much.
pub const LINE_OVERFLOW: &'static str = "line advance overflows";

/// The files of the line program of a unit: those that its instructions define
/// are among them where it runs through.
pub open spec fn listed_paths(contents: ContentsView, unit: usize) -> Seq<PathView> {
    let limit = usize::MAX as nat;
    match reading::dwarf_program_paths(contents, limit, unit) {
        Some(paths) if reading::lines_fit(contents, unit) => paths,
        _ => reading::dwarf_header_paths(contents, limit, unit),
    }
}

/// The directory of a line program with an index.
pub open spec fn directory_of(
    contents: ContentsView,
    unit: usize,
    version: u16,
    index: u64,
) -> Option<TextView> {
    if version <= 4 && !reading::index_fits(index) {
        None
    } else {
        reading::dwarf_directory(contents, usize::MAX as nat, unit, index)
    }
}

/// A file of a line program with its directory.
pub open spec fn file_of(
    contents: ContentsView,
    unit: usize,
    version: u16,
    path: PathView,
) -> FileView {
    FileView {
        path: path.path,
        directory: directory_of(contents, unit, version, path.directory),
    }
}

/// The files of the line program of a unit, and behind them the one that the
/// unit names, where index zero stands for it.
pub open spec fn program_paths(contents: ContentsView, unit: usize, version: u16) -> Seq<PathView> {
    match reading::dwarf_first_path(contents, usize::MAX as nat, unit) {
        Some(path) if version <= 4 => listed_paths(contents, unit).push(path),
        _ => listed_paths(contents, unit),
    }
}

/// The sequences of the line program of a unit.
pub open spec fn program_sequences(contents: ContentsView, unit: usize) -> Result<
    Seq<SequenceView>,
    Seq<char>,
> {
    if reading::lines_fit(contents, unit) {
        reading::dwarf_line_sequences(contents, usize::MAX as nat, unit)
    } else {
        Err(LINE_OVERFLOW@)
    }
}

/// Whether a record says what the parser reads of the line program of the unit
/// at an offset.
pub open spec fn says_program(
    program: Option<LineProgram>,
    contents: ContentsView,
    unit: usize,
) -> bool {
    let limit = usize::MAX as nat;
    match reading::dwarf_line_header(contents, limit, unit) {
        None => program is None,
        Some(header) => {
            &&& program matches Some(program)
            &&& program.version == header.version
            &&& program.dwarf64 == header.dwarf64
            &&& program.offset == header.offset
            &&& program.header_length == header.header_length
            &&& program.opcode_base == header.opcode_base
            &&& program.standard_opcode_lengths@ == header.standard_opcode_lengths
            &&& program.program@ == header.program
            &&& program.header_files == header.header_files
            &&& program.listed_files == listed_paths(contents, unit).len()
            &&& reading::file_views(program.files@) == program_paths(
                contents,
                unit,
                header.version,
            ).map_values(|path: PathView| file_of(contents, unit, header.version, path))
            &&& say_sequences(
                program.sequences,
                program_sequences(contents, unit),
                header.version,
                program.listed_files as nat,
                program.files@.len(),
            )
        },
    }
}

fn place_row(row: ProgramRow, version: u16, listed: usize, known: usize) -> (placed: LineRow)
    ensures
        placed == placed_row(row, version, listed as nat, known as nat),
{
    let file: Option<usize> = if version <= 4 {
        if row.file_index == 0 {
            if listed < known {
                Some(listed)
            } else {
                None
            }
        } else if row.file_index <= listed as u64 {
            Some((row.file_index - 1) as usize)
        } else {
            None
        }
    } else if row.file_index < listed as u64 {
        Some(row.file_index as usize)
    } else {
        None
    };
    LineRow {
        address: row.address,
        end_sequence: row.end_sequence,
        file_index: row.file_index,
        file,
        line: row.line,
    }
}

fn place_sequence(sequence: ProgramSequence, version: u16, listed: usize, known: usize) -> (placed: LineSequence)
    ensures
        says_sequence(placed, sequence@, version, listed as nat, known as nat),
{
    let mut rows: Vec<LineRow> = Vec::new();
    let mut i: usize = 0;
    while i < sequence.rows.len()
        invariant
            i <= sequence.rows@.len(),
            rows@.len() == i,
            forall|k: int|
                0 <= k < i ==> #[trigger] rows@[k] == placed_row(
                    sequence.rows@[k],
                    version,
                    listed as nat,
                    known as nat,
                ),
        decreases sequence.rows@.len() - i,
    {
        rows.push(place_row(sequence.rows[i], version, listed, known));
        i = i + 1;
    }
    assert(rows@ =~= sequence@.rows.map_values(
        |row: ProgramRow| placed_row(row, version, listed as nat, known as nat),
    ));
    LineSequence { start: sequence.start, end: sequence.end, rows, failure: sequence.failure }
}

fn place_sequences(
    sequences: Result<Vec<ProgramSequence>, String>,
    version: u16,
    listed: usize,
    known: usize,
    Ghost(views): Ghost<Result<Seq<SequenceView>, Seq<char>>>,
) -> (placed: Result<Vec<LineSequence>, String>)
    requires
        match views {
            Ok(views) => sequences matches Ok(sequences) && reading::sequence_views(sequences@)
                == views,
            Err(text) => sequences matches Err(source) && source@ == text,
        },
    ensures
        say_sequences(placed, views, version, listed as nat, known as nat),
{
    let mut found: Vec<ProgramSequence> = match sequences {
        Ok(found) => found,
        Err(source) => return Err(source),
    };
    let ghost all = found@;
    assert(reading::sequence_views(all) == views->Ok_0);
    assert forall|i: int| 0 <= i < all.len() implies #[trigger] all[i]@ == views->Ok_0[i] by {
        assert(reading::sequence_views(all)[i] == all[i]@);
    }
    let mut reversed: Vec<LineSequence> = Vec::new();
    while found.len() > 0
        invariant
            found@.len() <= all.len(),
            found@ == all.take(found@.len() as int),
            reversed@.len() == all.len() - found@.len(),
            forall|i: int|
                0 <= i < reversed@.len() ==> says_sequence(
                    #[trigger] reversed@[i],
                    all[all.len() - 1 - i]@,
                    version,
                    listed as nat,
                    known as nat,
                ),
        decreases found@.len(),
    {
        let ghost before = found@;
        let sequence = found.pop().unwrap();
        assert(sequence == all[before.len() - 1]);
        assert(found@ =~= all.take(found@.len() as int));
        reversed.push(place_sequence(sequence, version, listed, known));
    }
    let ghost backwards = reversed@;
    let mut placed: Vec<LineSequence> = Vec::new();
    while reversed.len() > 0
        invariant
            backwards.len() == all.len(),
            reversed@.len() <= all.len(),
            reversed@ == backwards.take(reversed@.len() as int),
            forall|i: int|
                0 <= i < backwards.len() ==> says_sequence(
                    #[trigger] backwards[i],
                    all[all.len() - 1 - i]@,
                    version,
                    listed as nat,
                    known as nat,
                ),
            placed@.len() == all.len() - reversed@.len(),
            forall|i: int|
                0 <= i < placed@.len() ==> says_sequence(
                    #[trigger] placed@[i],
                    all[i]@,
                    version,
                    listed as nat,
                    known as nat,
                ),
        decreases reversed@.len(),
    {
        let ghost before = reversed@;
        let sequence = reversed.pop().unwrap();
        assert(sequence == backwards[before.len() - 1]);
        assert(reversed@ =~= backwards.take(reversed@.len() as int));
        placed.push(sequence);
    }
    Ok(placed)
}

fn read_directory_of(unit: &UnitData<'_, '_>, version: u16, index: u64) -> (directory: Option<
    Text,
>)
    requires
        reading::dwarf_line_header(
            unit.place().contents,
            usize::MAX as nat,
            unit.place().offset,
        ) matches Some(header) && header.version == version,
    ensures
        reading::text_view(directory) == directory_of(
            unit.place().contents,
            unit.place().offset,
            version,
            index,
        ),
{
    let most: u64 = usize::MAX as u64;
    if version <= 4 && index != 0 && most != u64::MAX && index % (most + 1) == 0 {
        return None;
    }
    unit.read_directory(index)
}

/// Reads the directories of files of a line program.
fn read_files(unit: &UnitData<'_, '_>, version: u16, paths: Vec<ProgramPath>) -> (files: Vec<
    FileName,
>)
    requires
        reading::dwarf_line_header(
            unit.place().contents,
            usize::MAX as nat,
            unit.place().offset,
        ) matches Some(header) && header.version == version,
    ensures
        reading::file_views(files@) == reading::path_views(paths@).map_values(
            |path: PathView|
                file_of(unit.place().contents, unit.place().offset, version, path),
        ),
{
    let ghost contents = unit.place().contents;
    let ghost at = unit.place().offset;
    let ghost all = paths@;
    let mut directories: Vec<Option<Text>> = Vec::new();
    let mut left: usize = paths.len();
    while left > 0
        invariant
            contents == unit.place().contents,
            at == unit.place().offset,
            reading::dwarf_line_header(contents, usize::MAX as nat, at) matches Some(header)
                && header.version == version,
            all == paths@,
            left <= all.len(),
            directories@.len() == all.len() - left,
            forall|k: int|
                0 <= k < directories@.len() ==> reading::text_view(#[trigger] directories@[k])
                    == directory_of(contents, at, version, all[all.len() - 1 - k].directory),
        decreases left,
    {
        left = left - 1;
        directories.push(read_directory_of(unit, version, paths[left].directory));
    }
    let mut rest: Vec<ProgramPath> = reversed(paths);
    let mut files: Vec<FileName> = Vec::new();
    while rest.len() > 0
        invariant
            directories@.len() == rest@.len(),
            rest@.len() <= all.len(),
            forall|k: int|
                0 <= k < rest@.len() ==> #[trigger] rest@[k] == all[all.len() - 1 - k],
            forall|k: int|
                0 <= k < directories@.len() ==> reading::text_view(#[trigger] directories@[k])
                    == directory_of(contents, at, version, all[all.len() - 1 - k].directory),
            files@.len() == all.len() - rest@.len(),
            forall|k: int|
                0 <= k < files@.len() ==> (#[trigger] files@[k])@ == file_of(
                    contents,
                    at,
                    version,
                    all[k]@,
                ),
        decreases rest@.len(),
    {
        let ghost done = files@.len();
        let path = rest.pop().unwrap();
        let directory = directories.pop().unwrap();
        assert(path == all[done as int]);
        files.push(FileName { path: path.path, directory });
    }
    assert(reading::file_views(files@) =~= reading::path_views(all).map_values(
        |path: PathView| file_of(contents, at, version, path),
    ));
    files
}

fn reversed(paths: Vec<ProgramPath>) -> (reversed: Vec<ProgramPath>)
    ensures
        reversed@.len() == paths@.len(),
        forall|k: int|
            0 <= k < paths@.len() ==> #[trigger] reversed@[k] == paths@[paths@.len() - 1 - k],
{
    let ghost all = paths@;
    let mut paths: Vec<ProgramPath> = paths;
    let mut reversed: Vec<ProgramPath> = Vec::new();
    while paths.len() > 0
        invariant
            paths@.len() <= all.len(),
            paths@ == all.take(paths@.len() as int),
            reversed@.len() == all.len() - paths@.len(),
            forall|k: int|
                0 <= k < reversed@.len() ==> #[trigger] reversed@[k] == all[all.len() - 1 - k],
        decreases paths@.len(),
    {
        let ghost before = paths@;
        let path = paths.pop().unwrap();
        assert(path == all[before.len() - 1]);
        assert(paths@ =~= all.take(paths@.len() as int));
        reversed.push(path);
    }
    reversed
}

/// Reads the line program of a unit.
pub(crate) fn read_program(unit: &UnitData<'_, '_>) -> (program: Option<LineProgram>)
    ensures
        says_program(program, unit.place().contents, unit.place().offset),
{
    let ghost contents = unit.place().contents;
    let ghost at = unit.place().offset;
    let header: LineHeader = unit.read_line_header()?;
    let safe: bool = is_safely_run(
        header.program.as_slice(),
        header.standard_opcode_lengths.as_slice(),
        header.opcode_base,
    );
    assert(safe == reading::lines_fit(contents, at));
    let defined: Option<Vec<ProgramPath>> = if safe {
        unit.read_program_paths()
    } else {
        None
    };
    let mut paths: Vec<ProgramPath> = match defined {
        Some(paths) => paths,
        None => unit.read_header_paths(),
    };
    let ghost listed = paths@;
    assert(reading::path_views(listed) == listed_paths(contents, at));
    let listed_files: usize = paths.len();
    if header.version <= 4 {
        if let Some(path) = unit.read_first_path() {
            paths.push(path);
            assert(reading::path_views(paths@) =~= reading::path_views(listed).push(path@));
        }
    }
    assert(reading::path_views(paths@) == program_paths(contents, at, header.version));
    let files = read_files(unit, header.version, paths);
    let found: Result<Vec<ProgramSequence>, String> = if safe {
        unit.read_line_sequences()
    } else {
        Err(String::from_str(LINE_OVERFLOW))
    };
    let sequences = place_sequences(
        found,
        header.version,
        listed_files,
        files.len(),
        Ghost(program_sequences(contents, at)),
    );
    Some(
        LineProgram {
            version: header.version,
            dwarf64: header.dwarf64,
            offset: header.offset as u64,
            header_length: header.header_length as u64,
            opcode_base: header.opcode_base,
            standard_opcode_lengths: header.standard_opcode_lengths,
            program: header.program,
            header_files: header.header_files,
            listed_files,
            files,
            sequences,
        },
    )
}

/// Whether a record says what the parser reads of a unit, but for the entries
/// that references lead to.
pub open spec fn says_unit(unit: Unit, contents: ContentsView, head: UnitHead) -> bool {
    &&& unit.offset == Some(head.offset)
    &&& unit.length == head.length
    &&& unit.dwarf64 == head.dwarf64
    &&& match reading::dwarf_unit(contents, usize::MAX as nat, head.offset) {
        Err(text) => {
            &&& unit.failure matches Some(source) && source@ == text
            &&& unit.dwo_id is None
            &&& unit.line_program is None
            &&& unit.entries@.len() == 0
            &&& unit.entries_failure is None
        },
        Ok(dwo_id) => {
            let listed = reading::dwarf_entries(contents, usize::MAX as nat, head.offset);
            &&& unit.failure is None
            &&& unit.dwo_id == dwo_id
            &&& says_program(unit.line_program, contents, head.offset)
            &&& say_entries(unit.entries@, contents, head.offset, listed.heads)
            &&& reading::optional_text(unit.entries_failure) == listed.failure
        },
    }
}

/// Whether a record says what the parser reads at the place that a reference
/// leads to.
pub open spec fn says_target(target: Target, contents: ContentsView, unit: usize) -> bool {
    match reading::dwarf_entry(contents, usize::MAX as nat, unit, target.offset) {
        Ok(head) => target.entry matches Ok(entry) && says_entry(entry, contents, unit, head),
        Err(text) => target.entry matches Err(source) && source@ == text,
    }
}

/// Whether records say what the parser reads of all units of some sections.
pub open spec fn say_units(units: Units, contents: ContentsView) -> bool {
    let headers = reading::dwarf_headers(contents, usize::MAX as nat);
    &&& units.units@.len() == headers.units.len()
    &&& reading::optional_text(units.failure) == headers.failure
    &&& forall|i: int|
        0 <= i < headers.units.len() ==> says_unit(
            #[trigger] units.units@[i],
            contents,
            headers.units[i],
        )
    &&& forall|i: int, k: int|
        0 <= i < headers.units.len() && 0 <= k < units.units@[i].targets@.len() ==> says_target(
            #[trigger] units.units@[i].targets@[k],
            contents,
            headers.units[i].offset,
        )
}

fn read_record(data: &DwarfData<'_>, head: UnitHead) -> (unit: Unit)
    ensures
        says_unit(unit, source::dwarf_contents(*data), head),
        unit.targets@.len() == 0,
{
    let unit: UnitData<'_, '_> = match data.open_unit(head.offset) {
        Ok(unit) => unit,
        Err(source) => {
            return Unit {
                offset: Some(head.offset),
                length: head.length,
                failure: Some(source),
                dwo_id: None,
                dwarf64: head.dwarf64,
                line_program: None,
                entries: Vec::new(),
                entries_failure: None,
                targets: Vec::new(),
            };
        },
    };
    let listed: EntryHeads = unit.read_heads();
    Unit {
        offset: Some(head.offset),
        length: head.length,
        failure: None,
        dwo_id: unit.dwo_id(),
        dwarf64: head.dwarf64,
        line_program: read_program(&unit),
        entries: read_entries_at(&unit, &listed.heads),
        entries_failure: listed.failure,
        targets: Vec::new(),
    }
}

/// Reads all units of some sections, but for the entries that references lead
/// to.
pub(crate) fn read_units(data: &DwarfData<'_>) -> (units: Units)
    ensures
        say_units(units, source::dwarf_contents(*data)),
        forall|i: int| 0 <= i < units.units@.len() ==> (#[trigger] units.units@[i]).targets@.len() == 0,
{
    let ghost contents = source::dwarf_contents(*data);
    let headers = data.read_headers();
    let mut units: Vec<Unit> = Vec::new();
    let mut i: usize = 0;
    while i < headers.units.len()
        invariant
            contents == source::dwarf_contents(*data),
            i <= headers.units@.len(),
            units@.len() == i,
            forall|k: int|
                0 <= k < i ==> says_unit(#[trigger] units@[k], contents, headers.units@[k])
                    && units@[k].targets@.len() == 0,
        decreases headers.units@.len() - i,
    {
        units.push(read_record(data, headers.units[i]));
        i = i + 1;
    }
    Units { units, failure: headers.failure }
}

/// The ranges of a subprogram or of an inlined call are those that the parser gives,
/// where their bounds can be held.
pub proof fn law_ranges_are_those_of_the_parser(
    contents: ContentsView,
    unit: usize,
    head: EntryHead,
)
    requires
        head.tag == DW_TAG_SUBPROGRAM || head.tag == DW_TAG_INLINED_SUBROUTINE,
        reading::ranges_fit(contents, unit, head.offset),
    ensures
        entry_ranges(contents, unit, head) == reading::dwarf_ranges(
            contents,
            usize::MAX as nat,
            unit,
            head.offset,
        ),
{
}

} // verus!
