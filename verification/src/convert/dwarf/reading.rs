//! What the DWARF parser reads under a set of sections.
//!
//! Each name below stands for what one part of the parser returns. It depends
//! on the sections that the parser holds, on the place that is read, and on the
//! largest `usize`, in which the parser counts offsets.
use gimli::{
    AttributeValue, DebugInfoOffset, DwAt, EndianSlice, Format, Reader, RelocateReader,
    RunTimeEndian, Section, UnitOffset,
};
use vstd::prelude::*;
use vstd::string::*;

use crate::convert::dwarf::model::{Address, FileName, ListedRange, Ranges, Text};
use crate::convert::dwarf::program;
use crate::convert::dwarf::source;
use crate::convert::dwarf::source::{ContentsView, DwarfData, Relocations};

verus! {

/// The header of a unit.
#[derive(Clone, Copy, Debug, PartialEq, Eq, Structural)]
pub struct UnitHead {
    /// Offset in the debug information.
    pub offset: usize,
    /// Length with the header.
    pub length: usize,
    /// Whether the unit uses the 64-bit format.
    pub dwarf64: bool,
}

/// The headers of units.
pub struct Headers {
    /// The headers that could be read.
    pub units: Vec<UnitHead>,
    /// What the parser said after them.
    pub failure: Option<String>,
}

/// The headers of units.
pub struct HeadersView {
    /// The headers that could be read.
    pub units: Seq<UnitHead>,
    /// What the parser said after them.
    pub failure: Option<Seq<char>>,
}

/// An optional text as it is stated.
pub open spec fn optional_text(text: Option<String>) -> Option<Seq<char>> {
    match text {
        Some(text) => Some(text@),
        None => None,
    }
}

impl View for Headers {
    type V = HeadersView;

    open spec fn view(&self) -> HeadersView {
        HeadersView { units: self.units@, failure: optional_text(self.failure) }
    }
}

/// Where an entry stands and what it is.
#[derive(Clone, Copy, Debug, PartialEq, Eq, Structural)]
pub struct EntryHead {
    /// Offset in the unit.
    pub offset: usize,
    /// Nesting depth.
    pub depth: isize,
    /// Kind of the entry.
    pub tag: u16,
}

/// The entries of a unit without their attributes.
pub struct EntryHeads {
    /// The entries that could be read, in depth-first order.
    pub heads: Vec<EntryHead>,
    /// What the parser said after them.
    pub failure: Option<String>,
}

/// The entries of a unit without their attributes.
pub struct HeadsView {
    /// The entries that could be read, in depth-first order.
    pub heads: Seq<EntryHead>,
    /// What the parser said after them.
    pub failure: Option<Seq<char>>,
}

impl View for EntryHeads {
    type V = HeadsView;

    open spec fn view(&self) -> HeadsView {
        HeadsView { heads: self.heads@, failure: optional_text(self.failure) }
    }
}

/// A value of an attribute by its form.
#[derive(Clone, Copy, Debug, PartialEq, Eq, Structural)]
pub enum Value {
    /// Offset in the unit.
    UnitReference(usize),
    /// Offset in the debug information.
    InfoReference(usize),
    /// Offset in the debug information of the supplementary object.
    SupplementaryReference(usize),
    /// Index of a file.
    FileIndex(u64),
    /// Offset into a section.
    SectionOffset(usize),
    /// Offset into the line programs.
    LineOffset(usize),
    /// Plain unsigned number.
    Unsigned(u64),
    /// Anything else.
    Other,
}

/// A string that an attribute refers to.
pub struct TextView {
    /// Whether the string lies in the supplementary object.
    pub supplementary: bool,
    /// The bytes, or what the parser said.
    pub value: Result<Seq<u8>, Seq<char>>,
}

impl View for Text {
    type V = TextView;

    open spec fn view(&self) -> TextView {
        TextView {
            supplementary: self.supplementary,
            value: match self.value {
                Ok(bytes) => Ok(bytes@),
                Err(source) => Err(source@),
            },
        }
    }
}

/// An optional string as it is stated.
pub open spec fn text_view(text: Option<Text>) -> Option<TextView> {
    match text {
        Some(text) => Some(text@),
        None => None,
    }
}

/// An address attribute.
pub enum AddressView {
    /// The address.
    Known(u64),
    /// The attribute does not hold an address.
    Unknown,
    /// What the parser said.
    Failed(Seq<char>),
}

/// An optional address as it is stated.
pub open spec fn address_view(address: Option<Address>) -> Option<AddressView> {
    match address {
        Some(Address::Known(address)) => Some(AddressView::Known(address)),
        Some(Address::Unknown) => Some(AddressView::Unknown),
        Some(Address::Failed(source)) => Some(AddressView::Failed(source@)),
        None => None,
    }
}

/// The ranges of an entry.
pub enum RangesView {
    /// What the parser said of the list as a whole.
    Failed(Seq<char>),
    /// The ranges that could be read.
    Listed {
        /// The ranges in order.
        ranges: Seq<ListedRange>,
        /// What the parser said after them.
        failure: Option<Seq<char>>,
    },
}

impl View for Ranges {
    type V = RangesView;

    open spec fn view(&self) -> RangesView {
        match self {
            Ranges::Failed(source) => RangesView::Failed(source@),
            Ranges::Listed { ranges, failure } => RangesView::Listed {
                ranges: ranges@,
                failure: optional_text(*failure),
            },
        }
    }
}

/// The header of a line program.
pub struct LineHeader {
    /// Version of the program's format.
    pub version: u16,
    /// Whether the program uses the 64-bit format.
    pub dwarf64: bool,
    /// Offset of the program's header.
    pub offset: usize,
    /// Length of the header after the field that holds it.
    pub header_length: usize,
    /// First special opcode.
    pub opcode_base: u8,
    /// Numbers of operands of the standard opcodes.
    pub standard_opcode_lengths: Vec<u8>,
    /// The instructions.
    pub program: Vec<u8>,
    /// Number of files that the header lists.
    pub header_files: usize,
}

/// The header of a line program.
pub struct LineHeaderView {
    /// Version of the program's format.
    pub version: u16,
    /// Whether the program uses the 64-bit format.
    pub dwarf64: bool,
    /// Offset of the program's header.
    pub offset: usize,
    /// Length of the header after the field that holds it.
    pub header_length: usize,
    /// First special opcode.
    pub opcode_base: u8,
    /// Numbers of operands of the standard opcodes.
    pub standard_opcode_lengths: Seq<u8>,
    /// The instructions.
    pub program: Seq<u8>,
    /// Number of files that the header lists.
    pub header_files: usize,
}

impl View for LineHeader {
    type V = LineHeaderView;

    open spec fn view(&self) -> LineHeaderView {
        LineHeaderView {
            version: self.version,
            dwarf64: self.dwarf64,
            offset: self.offset,
            header_length: self.header_length,
            opcode_base: self.opcode_base,
            standard_opcode_lengths: self.standard_opcode_lengths@,
            program: self.program@,
            header_files: self.header_files,
        }
    }
}

/// A file of a line program as the parser gives it.
pub struct ProgramPath {
    /// Name of the file.
    pub path: Text,
    /// Index of the directory of the file.
    pub directory: u64,
}

/// A file of a line program as the parser gives it.
pub struct PathView {
    /// Name of the file.
    pub path: TextView,
    /// Index of the directory of the file.
    pub directory: u64,
}

impl View for ProgramPath {
    type V = PathView;

    open spec fn view(&self) -> PathView {
        PathView { path: self.path@, directory: self.directory }
    }
}

/// Files of a line program as they are stated.
pub open spec fn path_views(paths: Seq<ProgramPath>) -> Seq<PathView> {
    paths.map_values(|path: ProgramPath| path@)
}

/// A file of a line program.
pub struct FileView {
    /// Name of the file.
    pub path: TextView,
    /// Directory of the file.
    pub directory: Option<TextView>,
}

impl View for FileName {
    type V = FileView;

    open spec fn view(&self) -> FileView {
        FileView { path: self.path@, directory: text_view(self.directory) }
    }
}

/// Files of a line program as they are stated.
pub open spec fn file_views(files: Seq<FileName>) -> Seq<FileView> {
    files.map_values(|file: FileName| file@)
}

/// A row of a line program as the parser gives it.
#[derive(Clone, Copy, Debug, PartialEq, Eq, Structural)]
pub struct ProgramRow {
    /// Address.
    pub address: u64,
    /// Whether the row only ends its sequence.
    pub end_sequence: bool,
    /// Index of the file as the program writes it.
    pub file_index: u64,
    /// Line number.
    pub line: Option<u64>,
}

/// A sequence of a line program as the parser gives it.
pub struct ProgramSequence {
    /// Inclusive start address.
    pub start: u64,
    /// Exclusive end address.
    pub end: u64,
    /// The rows that could be read.
    pub rows: Vec<ProgramRow>,
    /// What the parser said after them.
    pub failure: Option<String>,
}

/// A sequence of a line program as the parser gives it.
pub struct SequenceView {
    /// Inclusive start address.
    pub start: u64,
    /// Exclusive end address.
    pub end: u64,
    /// The rows that could be read.
    pub rows: Seq<ProgramRow>,
    /// What the parser said after them.
    pub failure: Option<Seq<char>>,
}

impl View for ProgramSequence {
    type V = SequenceView;

    open spec fn view(&self) -> SequenceView {
        SequenceView {
            start: self.start,
            end: self.end,
            rows: self.rows@,
            failure: optional_text(self.failure),
        }
    }
}

/// Sequences of a line program as they are stated.
pub open spec fn sequence_views(sequences: Seq<ProgramSequence>) -> Seq<SequenceView> {
    sequences.map_values(|sequence: ProgramSequence| sequence@)
}

/// A list of ranges that an attribute refers to.
#[derive(Clone, Copy, Debug, PartialEq, Eq, Structural)]
pub enum RangeList {
    /// By its offset.
    Offset(usize),
    /// By its index.
    Index(usize),
}

/// What an attribute of an entry says of its addresses.
pub struct Bound {
    /// Code of the attribute.
    pub name: u16,
    /// The value as an address.
    pub address: Address,
    /// The value as an unsigned number.
    pub size: Option<u64>,
    /// The value as a list of ranges.
    pub list: Option<RangeList>,
}

/// What an attribute of an entry says of its addresses.
pub struct BoundView {
    /// Code of the attribute.
    pub name: u16,
    /// The value as an address.
    pub address: AddressView,
    /// The value as an unsigned number.
    pub size: Option<u64>,
    /// The value as a list of ranges.
    pub list: Option<RangeList>,
}

impl View for Bound {
    type V = BoundView;

    open spec fn view(&self) -> BoundView {
        BoundView {
            name: self.name,
            address: match self.address {
                Address::Known(address) => AddressView::Known(address),
                Address::Unknown => AddressView::Unknown,
                Address::Failed(source) => AddressView::Failed(source@),
            },
            size: self.size,
            list: self.list,
        }
    }
}

/// What attributes say of addresses, as it is stated.
pub open spec fn bound_views(bounds: Seq<Bound>) -> Seq<BoundView> {
    bounds.map_values(|bound: Bound| bound@)
}

/// Code of `DW_AT_low_pc`.
pub const DW_AT_LOW_PC: u16 = 0x11;

/// Code of `DW_AT_high_pc`.
pub const DW_AT_HIGH_PC: u16 = 0x12;

/// Code of `DW_AT_ranges`.
pub const DW_AT_RANGES: u16 = 0x55;

/// The headers that `gimli::Dwarf::units` gives.
pub uninterp spec fn dwarf_headers(contents: ContentsView, limit: nat) -> HeadersView;

/// The identifier of the split unit that the unit at an offset stands for, or
/// what `gimli::Dwarf::unit` says of the unit.
pub uninterp spec fn dwarf_unit(contents: ContentsView, limit: nat, unit: usize) -> Result<
    Option<u64>,
    Seq<char>,
>;

/// The entries of a unit that `gimli::EntriesCursor::next_dfs` gives.
pub uninterp spec fn dwarf_entries(contents: ContentsView, limit: nat, unit: usize) -> HeadsView;

/// The entry at an offset of a unit that `gimli::Unit::entry` gives.
pub uninterp spec fn dwarf_entry(
    contents: ContentsView,
    limit: nat,
    unit: usize,
    offset: usize,
) -> Result<EntryHead, Seq<char>>;

/// The string of an attribute of an entry that `gimli::Dwarf::attr_string`
/// gives, if the entry has the attribute.
pub uninterp spec fn dwarf_text(
    contents: ContentsView,
    limit: nat,
    unit: usize,
    offset: usize,
    attribute: u16,
) -> Option<TextView>;

/// The value of an attribute of an entry that
/// `gimli::DebuggingInformationEntry::attr_value` gives, if the entry has it.
pub uninterp spec fn dwarf_value(
    contents: ContentsView,
    limit: nat,
    unit: usize,
    offset: usize,
    attribute: u16,
) -> Option<Value>;

/// The address of an attribute of an entry that `gimli::Dwarf::attr_address`
/// gives, if the entry has the attribute.
pub uninterp spec fn dwarf_address(
    contents: ContentsView,
    limit: nat,
    unit: usize,
    offset: usize,
    attribute: u16,
) -> Option<AddressView>;

/// What the attributes of an entry that `gimli::Unit::entry` gives say of its
/// addresses, in order.
pub uninterp spec fn dwarf_bounds(
    contents: ContentsView,
    limit: nat,
    unit: usize,
    offset: usize,
) -> Seq<BoundView>;

/// The base of the indexed range lists that a `gimli::Unit` holds.
pub uninterp spec fn dwarf_list_base(contents: ContentsView, limit: nat, unit: usize) -> usize;

/// The number of bytes of an offset that a `gimli::Unit` holds.
pub uninterp spec fn dwarf_word_size(contents: ContentsView, limit: nat, unit: usize) -> u8;

/// The offset that `gimli::Reader::read_offset` gives in `.debug_rnglists` behind
/// `base` and then `step` bytes, if it lies there.
pub uninterp spec fn dwarf_list_offset(
    contents: ContentsView,
    limit: nat,
    unit: usize,
    base: usize,
    step: usize,
) -> Option<usize>;

/// The ranges of an entry that `gimli::Dwarf::die_ranges` gives.
pub uninterp spec fn dwarf_ranges(
    contents: ContentsView,
    limit: nat,
    unit: usize,
    offset: usize,
) -> RangesView;

/// Whether the range list with an index starts at an offset that overflows.
pub open spec fn list_overflows(contents: ContentsView, unit: usize, index: usize) -> bool {
    let limit = usize::MAX as nat;
    let base = dwarf_list_base(contents, limit, unit);
    let step = index * dwarf_word_size(contents, limit, unit);
    step <= usize::MAX && (dwarf_list_offset(
        contents,
        limit,
        unit,
        base,
        step as usize,
    ) matches Some(offset) && base + offset > usize::MAX)
}

/// Whether the ranges that attributes from `from` on give can be worked out
/// without overflow, where `low` and `size` are the start and the size before.
/// The last start and the last size count; a list of ranges ends the search, and
/// so does a value that is no address.
pub open spec fn bounds_fit(
    bounds: Seq<BoundView>,
    from: int,
    low: Option<u64>,
    size: Option<u64>,
    contents: ContentsView,
    unit: usize,
) -> bool
    decreases bounds.len() - from,
{
    if from < 0 || from >= bounds.len() {
        match (low, size) {
            (Some(low), Some(size)) => low + size <= u64::MAX,
            _ => true,
        }
    } else {
        let bound = bounds[from];
        if bound.name == DW_AT_LOW_PC {
            match bound.address {
                AddressView::Known(address) => bounds_fit(
                    bounds,
                    from + 1,
                    Some(address),
                    size,
                    contents,
                    unit,
                ),
                _ => true,
            }
        } else if bound.name == DW_AT_HIGH_PC {
            if bound.size is Some {
                bounds_fit(bounds, from + 1, low, bound.size, contents, unit)
            } else {
                match bound.address {
                    AddressView::Known(_) => bounds_fit(
                        bounds,
                        from + 1,
                        low,
                        size,
                        contents,
                        unit,
                    ),
                    _ => true,
                }
            }
        } else if bound.name == DW_AT_RANGES {
            match bound.list {
                None => bounds_fit(bounds, from + 1, low, size, contents, unit),
                Some(RangeList::Offset(_)) => true,
                Some(RangeList::Index(index)) => !list_overflows(contents, unit, index),
            }
        } else {
            bounds_fit(bounds, from + 1, low, size, contents, unit)
        }
    }
}

/// Whether the ranges of an entry can be worked out without overflow.
pub open spec fn ranges_fit(contents: ContentsView, unit: usize, offset: usize) -> bool {
    bounds_fit(
        dwarf_bounds(contents, usize::MAX as nat, unit, offset),
        0,
        None,
        None,
        contents,
        unit,
    )
}

/// The header of the line program that a `gimli::Unit` holds.
pub uninterp spec fn dwarf_line_header(contents: ContentsView, limit: nat, unit: usize) -> Option<
    LineHeaderView,
>;

/// The files that the header of the line program of a unit lists.
pub uninterp spec fn dwarf_header_paths(contents: ContentsView, limit: nat, unit: usize) -> Seq<
    PathView,
>;

/// The files of the line program of a unit, those that its instructions define
/// among them, where `gimli::IncompleteLineProgram::sequences` runs through.
pub uninterp spec fn dwarf_program_paths(
    contents: ContentsView,
    limit: nat,
    unit: usize,
) -> Option<Seq<PathView>>;

/// The file of the line program of a unit that
/// `gimli::LineProgramHeader::file` gives for index zero.
pub uninterp spec fn dwarf_first_path(contents: ContentsView, limit: nat, unit: usize) -> Option<
    PathView,
>;

/// The directory of the line program of a unit that
/// `gimli::LineProgramHeader::directory` gives for an index.
pub uninterp spec fn dwarf_directory(
    contents: ContentsView,
    limit: nat,
    unit: usize,
    index: u64,
) -> Option<TextView>;

/// Whether an index of a directory can be looked up: it is zero, or more than
/// zero once it is cut to a `usize`.
pub open spec fn index_fits(index: u64) -> bool {
    index == 0 || index as int % (usize::MAX + 1) != 0
}

/// Whether the line program of a unit can be run without overflow.
pub open spec fn lines_fit(contents: ContentsView, unit: usize) -> bool {
    match dwarf_line_header(contents, usize::MAX as nat, unit) {
        Some(header) => program::runs_safely(
            header.program,
            header.standard_opcode_lengths,
            header.opcode_base,
            0,
        ),
        None => false,
    }
}

/// The sequences of the line program of a unit that
/// `gimli::IncompleteLineProgram::sequences` gives, with their rows.
pub uninterp spec fn dwarf_line_sequences(
    contents: ContentsView,
    limit: nat,
    unit: usize,
) -> Result<Seq<SequenceView>, Seq<char>>;

/// The name of a split file that `gimli::Unit::dwo_name` gives.
pub uninterp spec fn dwarf_dwo_name(contents: ContentsView, limit: nat, unit: usize) -> Result<
    Option<TextView>,
    Seq<char>,
>;

/// The directory that a unit was compiled in, as a `gimli::Unit` holds it.
pub uninterp spec fn dwarf_compile_directory(
    contents: ContentsView,
    limit: nat,
    unit: usize,
) -> Option<Seq<u8>>;

/// A unit that the parser holds.
///
/// It holds a `gimli::Unit`; [`unit_place`] tells which.
#[verifier::external_body]
pub struct UnitData<'d, 'a> {
    dwarf: &'d gimli::Dwarf<RelocateReader<EndianSlice<'a, RunTimeEndian>, Relocations<'a>>>,
    unit: gimli::Unit<RelocateReader<EndianSlice<'a, RunTimeEndian>, Relocations<'a>>>,
}

/// Where a unit lies.
pub struct UnitPlace {
    /// The sections.
    pub contents: ContentsView,
    /// Offset in the debug information.
    pub offset: usize,
}

/// Where the unit of a `gimli::Unit` and the `gimli::Dwarf` that it is read
/// with lies.
pub uninterp spec fn unit_place(unit: UnitData<'_, '_>) -> UnitPlace;

impl<'a> DwarfData<'a> {
    /// Calls `gimli::Dwarf::units`, and takes the offset, the length and the
    /// format of each header. A header of that iterator lies in `.debug_info`.
    #[verifier::external_body]
    pub(crate) fn read_headers(&self) -> (headers: Headers)
        ensures
            headers@ == dwarf_headers(source::dwarf_contents(*self), usize::MAX as nat),
    {
        let mut units = Vec::new();
        let mut failure = None;
        for header in self.dwarf.units() {
            match header {
                Ok(header) => units.push(UnitHead {
                    offset: header.debug_info_offset().unwrap().0,
                    length: header.length_including_self(),
                    dwarf64: header.encoding().format == Format::Dwarf64,
                }),
                Err(error) => failure = Some(error.to_string()),
            }
        }
        Headers { units, failure }
    }

    /// Calls `gimli::Dwarf::unit` on the header at an offset. Whether it accepts
    /// the unit depends on the sections, the offset and the largest `usize`
    /// alone.
    #[verifier::external_body]
    pub(crate) fn open_unit<'d>(&'d self, unit: usize) -> (result: Result<UnitData<'d, 'a>, String>)
        ensures
            match dwarf_unit(source::dwarf_contents(*self), usize::MAX as nat, unit) {
                Ok(_) => result matches Ok(data) && unit_place(data) == (UnitPlace {
                    contents: source::dwarf_contents(*self),
                    offset: unit,
                }),
                Err(text) => result matches Err(source) && source@ == text,
            },
    {
        self.dwarf.debug_info.header_from_offset(DebugInfoOffset(unit))
            .and_then(|header| self.dwarf.unit(header))
            .map(|unit| UnitData { dwarf: &self.dwarf, unit })
            .map_err(|error| error.to_string())
    }
}

impl<'d, 'a> UnitData<'d, 'a> {
    /// Where the unit lies.
    pub open spec fn place(&self) -> UnitPlace {
        unit_place(*self)
    }

    /// Reads the identifier that `gimli::Dwarf::unit` found.
    #[verifier::external_body]
    pub(crate) fn dwo_id(&self) -> (id: Option<u64>)
        ensures
            id == dwarf_unit(
                unit_place(*self).contents,
                usize::MAX as nat,
                unit_place(*self).offset,
            )->Ok_0,
    {
        self.unit.dwo_id.map(|id| id.0)
    }

    /// Goes through the entries with `gimli::EntriesCursor::next_dfs`.
    #[verifier::external_body]
    pub(crate) fn read_heads(&self) -> (heads: EntryHeads)
        ensures
            heads@ == dwarf_entries(
                unit_place(*self).contents,
                usize::MAX as nat,
                unit_place(*self).offset,
            ),
    {
        let mut cursor = self.unit.entries();
        let mut failure = None;
        let heads = std::iter::from_fn(|| cursor.next_dfs().unwrap_or_else(|error| {
            failure = Some(error.to_string());
            None
        }).map(|entry| EntryHead {
            offset: entry.offset().0,
            depth: entry.depth(),
            tag: entry.tag().0,
        })).collect();
        EntryHeads { heads, failure }
    }

    /// Calls `gimli::Unit::entry` for each of some offsets.
    #[verifier::external_body]
    pub(crate) fn read_entries(&self, offsets: &[usize]) -> (entries: Vec<
        Result<EntryHead, String>,
    >)
        ensures
            entries@.len() == offsets@.len(),
            forall|i: int|
                0 <= i < offsets@.len() ==> head_outcome(#[trigger] entries@[i]) == dwarf_entry(
                    unit_place(*self).contents,
                    usize::MAX as nat,
                    unit_place(*self).offset,
                    offsets@[i],
                ),
    {
        offsets.iter().map(|offset| self.unit.entry(UnitOffset(*offset)).map(|entry| EntryHead {
            offset: entry.offset().0,
            depth: entry.depth(),
            tag: entry.tag().0,
        }).map_err(|error| error.to_string())).collect()
    }

    /// Calls `gimli::Dwarf::attr_string` on an attribute of each of some
    /// entries.
    #[verifier::external_body]
    pub(crate) fn read_texts(&self, offsets: &[usize], attribute: u16) -> (texts: Vec<
        Option<Text>,
    >)
        ensures
            texts@.len() == offsets@.len(),
            forall|i: int|
                0 <= i < offsets@.len() ==> text_view(#[trigger] texts@[i]) == dwarf_text(
                    unit_place(*self).contents,
                    usize::MAX as nat,
                    unit_place(*self).offset,
                    offsets@[i],
                    attribute,
                ),
    {
        offsets.iter().map(|offset| {
            let value = self.unit.entry(UnitOffset(*offset)).ok()?.attr_value(DwAt(attribute))?;
            Some(Text {
                supplementary: matches!(value, AttributeValue::DebugStrRefSup(_)),
                value: self.dwarf.attr_string(&self.unit, value)
                    .map(|text| text.inner().to_vec()).map_err(|error| error.to_string()),
            })
        }).collect()
    }

    /// Calls `gimli::DebuggingInformationEntry::attr_value` on an attribute of
    /// each of some entries, and `udata_value` where the form is no reference
    /// and no offset.
    #[verifier::external_body]
    pub(crate) fn read_values(&self, offsets: &[usize], attribute: u16) -> (values:
        Vec<Option<Value>>)
        ensures
            values@.len() == offsets@.len(),
            forall|i: int|
                0 <= i < offsets@.len() ==> #[trigger] values@[i] == dwarf_value(
                    unit_place(*self).contents,
                    usize::MAX as nat,
                    unit_place(*self).offset,
                    offsets@[i],
                    attribute,
                ),
    {
        offsets.iter().map(|offset| {
            Some(match self.unit.entry(UnitOffset(*offset)).ok()?.attr_value(DwAt(attribute))? {
                AttributeValue::UnitRef(offset) => Value::UnitReference(offset.0),
                AttributeValue::DebugInfoRef(offset) => Value::InfoReference(offset.0),
                AttributeValue::DebugInfoRefSup(offset) => Value::SupplementaryReference(offset.0),
                AttributeValue::FileIndex(index) => Value::FileIndex(index),
                AttributeValue::SecOffset(offset) => Value::SectionOffset(offset),
                AttributeValue::DebugLineRef(offset) => Value::LineOffset(offset.0),
                other => other.udata_value().map_or(Value::Other, Value::Unsigned),
            })
        }).collect()
    }

    /// Calls `gimli::Dwarf::attr_address` on an attribute of each of some
    /// entries.
    #[verifier::external_body]
    pub(crate) fn read_addresses(&self, offsets: &[usize], attribute: u16) -> (
        addresses: Vec<Option<Address>>)
        ensures
            addresses@.len() == offsets@.len(),
            forall|i: int|
                0 <= i < offsets@.len() ==> address_view(#[trigger] addresses@[i])
                    == dwarf_address(
                    unit_place(*self).contents,
                    usize::MAX as nat,
                    unit_place(*self).offset,
                    offsets@[i],
                    attribute,
                ),
    {
        offsets.iter().map(|offset| {
            let value = self.unit.entry(UnitOffset(*offset)).ok()?.attr_value(DwAt(attribute))?;
            Some(match self.dwarf.attr_address(&self.unit, value) {
                Ok(Some(address)) => Address::Known(address),
                Ok(None) => Address::Unknown,
                Err(error) => Address::Failed(error.to_string()),
            })
        }).collect()
    }

    /// Goes through the attributes of an entry of `gimli::Unit::entry`, and calls
    /// `gimli::Dwarf::attr_address` on the value of each.
    #[verifier::external_body]
    pub(crate) fn read_bounds(&self, offset: usize) -> (bounds: Vec<Bound>)
        ensures
            bound_views(bounds@) == dwarf_bounds(
                unit_place(*self).contents,
                usize::MAX as nat,
                unit_place(*self).offset,
                offset,
            ),
    {
        let entry = self.unit.entry(UnitOffset(offset));
        entry.iter().flat_map(|entry| entry.attrs()).map(|attribute| Bound {
            name: attribute.name().0,
            address: match self.dwarf.attr_address(&self.unit, attribute.value()) {
                Ok(Some(address)) => Address::Known(address),
                Ok(None) => Address::Unknown,
                Err(error) => Address::Failed(error.to_string()),
            },
            size: match attribute.value() { AttributeValue::Udata(size) => Some(size), _ => None },
            list: match attribute.value() {
                AttributeValue::RangeListsRef(offset) => Some(RangeList::Offset(offset.0)),
                AttributeValue::DebugRngListsIndex(index) => Some(RangeList::Index(index.0)),
                _ => None,
            },
        }).collect()
    }

    /// Reads the base of the indexed range lists that `gimli::Dwarf::unit` found.
    #[verifier::external_body]
    pub(crate) fn list_base(&self) -> (base: usize)
        ensures
            base == dwarf_list_base(
                unit_place(*self).contents,
                usize::MAX as nat,
                unit_place(*self).offset,
            ),
    {
        self.unit.rnglists_base.0
    }

    /// Calls `gimli::Format::word_size` for the format of the unit.
    #[verifier::external_body]
    pub(crate) fn word_size(&self) -> (size: u8)
        ensures
            size == dwarf_word_size(
                unit_place(*self).contents,
                usize::MAX as nat,
                unit_place(*self).offset,
            ),
    {
        self.unit.encoding().format.word_size()
    }

    /// Calls `gimli::Reader::read_offset` on `.debug_rnglists` behind `base` and
    /// then `step` bytes.
    #[verifier::external_body]
    pub(crate) fn read_list_offset(&self, base: usize, step: usize) -> (offset: Option<usize>)
        ensures
            offset == dwarf_list_offset(
                unit_place(*self).contents,
                usize::MAX as nat,
                unit_place(*self).offset,
                base,
                step,
            ),
    {
        let mut input = self.dwarf.ranges.debug_rnglists().reader().clone();
        input.skip(base).ok()?;
        input.skip(step).ok()?;
        input.read_offset(self.unit.encoding().format).ok()
    }

    /// Calls `gimli::Dwarf::die_ranges` on an entry, and `is_tombstone_address`
    /// on the start of each range. It adds a size to a start, or a base to an
    /// offset, which must not overflow.
    #[verifier::external_body]
    pub(crate) fn read_ranges(&self, offset: usize) -> (list: Ranges)
        requires
            ranges_fit(unit_place(*self).contents, unit_place(*self).offset, offset),
        ensures
            list@ == dwarf_ranges(
                unit_place(*self).contents,
                usize::MAX as nat,
                unit_place(*self).offset,
                offset,
            ),
    {
        match self.unit.entry(UnitOffset(offset)).and_then(|entry|
            self.dwarf.die_ranges(&self.unit, &entry)) {
            Err(error) => Ranges::Failed(error.to_string()),
            Ok(mut list) => {
                let mut failure = None;
                let ranges = std::iter::from_fn(|| list.next().unwrap_or_else(|error| {
                    failure = Some(error.to_string());
                    None
                })).map(|range| ListedRange { begin: range.begin, end: range.end,
                    tombstone: self.unit.is_tombstone_address(range.begin) }).collect();
                Ranges::Listed { ranges, failure }
            },
        }
    }

    /// Reads the header of the line program that `gimli::Dwarf::unit` found.
    #[verifier::external_body]
    pub(crate) fn read_line_header(&self) -> (header: Option<LineHeader>)
        ensures
            match dwarf_line_header(
                unit_place(*self).contents,
                usize::MAX as nat,
                unit_place(*self).offset,
            ) {
                Some(view) => header matches Some(header) && header@ == view,
                None => header is None,
            },
    {
        self.unit.line_program.as_ref().map(|program| program.header()).map(|header| LineHeader {
            version: header.version(),
            dwarf64: header.encoding().format == Format::Dwarf64,
            offset: header.offset().0,
            header_length: header.header_length(),
            opcode_base: header.opcode_base(),
            standard_opcode_lengths: header.standard_opcode_lengths().inner().to_vec(),
            program: header.raw_program_buf().inner().to_vec(),
            header_files: header.file_names().len(),
        })
    }

    /// Reads the files that the header of the line program lists, their names with
    /// `gimli::Dwarf::attr_string`.
    #[verifier::external_body]
    pub(crate) fn read_header_paths(&self) -> (paths: Vec<ProgramPath>)
        requires
            dwarf_line_header(
                unit_place(*self).contents,
                usize::MAX as nat,
                unit_place(*self).offset,
            ) is Some,
        ensures
            path_views(paths@) == dwarf_header_paths(
                unit_place(*self).contents,
                usize::MAX as nat,
                unit_place(*self).offset,
            ),
    {
        let program = self.unit.line_program.as_ref().unwrap();
        program.header().file_names().iter().map(|file| ProgramPath {
            path: Text {
                supplementary: matches!(file.path_name(), AttributeValue::DebugStrRefSup(_)),
                value: self.dwarf.attr_string(&self.unit, file.path_name())
                    .map(|text| text.inner().to_vec()).map_err(|error| error.to_string()),
            },
            directory: file.directory_index(),
        }).collect()
    }

    /// Calls `gimli::IncompleteLineProgram::sequences`, and reads the files of the
    /// header that it gives, their names with `gimli::Dwarf::attr_string`. It
    /// negates what a line is taken back by, which must not overflow.
    #[verifier::external_body]
    pub(crate) fn read_program_paths(&self) -> (paths: Option<Vec<ProgramPath>>)
        requires
            lines_fit(unit_place(*self).contents, unit_place(*self).offset),
        ensures
            match dwarf_program_paths(
                unit_place(*self).contents,
                usize::MAX as nat,
                unit_place(*self).offset,
            ) {
                Some(views) => paths matches Some(paths) && path_views(paths@) == views,
                None => paths is None,
            },
    {
        let program = self.unit.line_program.clone().unwrap();
        program.sequences().ok().map(|(program, _)| program.header().file_names().iter().map(
            |file| ProgramPath {
                path: Text {
                    supplementary: matches!(file.path_name(), AttributeValue::DebugStrRefSup(_)),
                    value: self.dwarf.attr_string(&self.unit, file.path_name())
                        .map(|text| text.inner().to_vec()).map_err(|error| error.to_string()),
                },
                directory: file.directory_index(),
            }).collect())
    }

    /// Calls `gimli::LineProgramHeader::file` with index zero, and reads the
    /// name of the file with `gimli::Dwarf::attr_string`.
    #[verifier::external_body]
    pub(crate) fn read_first_path(&self) -> (path: Option<ProgramPath>)
        requires
            dwarf_line_header(
                unit_place(*self).contents,
                usize::MAX as nat,
                unit_place(*self).offset,
            ) is Some,
        ensures
            match dwarf_first_path(
                unit_place(*self).contents,
                usize::MAX as nat,
                unit_place(*self).offset,
            ) {
                Some(view) => path matches Some(path) && path@ == view,
                None => path is None,
            },
    {
        self.unit.line_program.as_ref().unwrap().header().file(0).map(|file| ProgramPath {
            path: Text {
                supplementary: matches!(file.path_name(), AttributeValue::DebugStrRefSup(_)),
                value: self.dwarf.attr_string(&self.unit, file.path_name())
                    .map(|text| text.inner().to_vec()).map_err(|error| error.to_string()),
            },
            directory: file.directory_index(),
        })
    }

    /// Calls `gimli::LineProgramHeader::directory`, and reads the name of the
    /// directory with `gimli::Dwarf::attr_string`. Before version five it takes one
    /// from an index that is cut to a `usize`, unless the index is zero.
    #[verifier::external_body]
    pub(crate) fn read_directory(&self, index: u64) -> (directory: Option<Text>)
        requires
            dwarf_line_header(
                unit_place(*self).contents,
                usize::MAX as nat,
                unit_place(*self).offset,
            ) matches Some(header) && (header.version <= 4 ==> index_fits(index)),
        ensures
            text_view(directory) == dwarf_directory(
                unit_place(*self).contents,
                usize::MAX as nat,
                unit_place(*self).offset,
                index,
            ),
    {
        let header = self.unit.line_program.as_ref().unwrap().header();
        header.directory(index).map(|value| Text {
            supplementary: matches!(value, AttributeValue::DebugStrRefSup(_)),
            value: self.dwarf.attr_string(&self.unit, value)
                .map(|text| text.inner().to_vec()).map_err(|error| error.to_string()),
        })
    }

    /// Calls `gimli::IncompleteLineProgram::sequences`, and goes through the
    /// rows of each sequence with `resume_from` and `next_row`. These negate what a
    /// line is taken back by, which must not overflow.
    #[verifier::external_body]
    pub(crate) fn read_line_sequences(&self) -> (result: Result<
        Vec<ProgramSequence>,
        String,
    >)
        requires
            lines_fit(unit_place(*self).contents, unit_place(*self).offset),
        ensures
            match dwarf_line_sequences(
                unit_place(*self).contents,
                usize::MAX as nat,
                unit_place(*self).offset,
            ) {
                Ok(views) => result matches Ok(sequences) && sequence_views(sequences@) == views,
                Err(text) => result matches Err(source) && source@ == text,
            },
    {
        let program = self.unit.line_program.clone().unwrap();
        program.sequences().map(|(program, found)| found.iter().map(|sequence| {
            let mut reader = program.resume_from(sequence);
            let mut failure = None;
            let rows = std::iter::from_fn(|| reader.next_row().unwrap_or_else(|error| {
                failure = Some(error.to_string());
                None
            }).map(|(_, row)| ProgramRow {
                address: row.address(), end_sequence: row.end_sequence(),
                file_index: row.file_index(), line: row.line().map(|line| line.get()),
            })).collect();
            ProgramSequence { start: sequence.start, end: sequence.end, rows, failure }
        }).collect()).map_err(|error| error.to_string())
    }

    /// Calls `gimli::Unit::dwo_name`, and reads the name with
    /// `gimli::Dwarf::attr_string`.
    #[verifier::external_body]
    pub(crate) fn read_dwo_name(&self) -> (result: Result<Option<Text>, String>)
        ensures
            match dwarf_dwo_name(
                unit_place(*self).contents,
                usize::MAX as nat,
                unit_place(*self).offset,
            ) {
                Ok(view) => result matches Ok(name) && text_view(name) == view,
                Err(text) => result matches Err(source) && source@ == text,
            },
    {
        self.unit.dwo_name().map(|name| name.map(|value| Text {
            supplementary: matches!(value, AttributeValue::DebugStrRefSup(_)),
            value: self.dwarf.attr_string(&self.unit, value)
                .map(|text| text.inner().to_vec()).map_err(|error| error.to_string()),
        })).map_err(|error| error.to_string())
    }

    /// Reads the directory that `gimli::Dwarf::unit` found.
    #[verifier::external_body]
    pub(crate) fn compile_directory(&self) -> (directory: Option<Vec<u8>>)
        ensures
            match dwarf_compile_directory(
                unit_place(*self).contents,
                usize::MAX as nat,
                unit_place(*self).offset,
            ) {
                Some(bytes) => directory matches Some(directory) && directory@ == bytes,
                None => directory is None,
            },
    {
        self.unit.comp_dir.as_ref().map(|directory| directory.inner().to_vec())
    }
}

/// An entry, or what the parser said, as it is stated.
pub open spec fn head_outcome(result: Result<EntryHead, String>) -> Result<EntryHead, Seq<char>> {
    match result {
        Ok(head) => Ok(head),
        Err(text) => Err(text@),
    }
}

} // verus!
