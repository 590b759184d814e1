//! What the import reads of DWARF data.
//!
//! The records hold what the DWARF parser returned, failures included, so that
//! a failure takes effect only where the import reaches it.
use vstd::prelude::*;
use vstd::string::*;

use crate::error::{Error, ErrorView};
use crate::model::copy_bytes;

verus! {

/// Tag of a subprogram entry.
pub const DW_TAG_SUBPROGRAM: u16 = 0x2e;

/// Tag of an inlined-subroutine entry.
pub const DW_TAG_INLINED_SUBROUTINE: u16 = 0x1d;

/// Tag of a call-site entry.
pub const DW_TAG_CALL_SITE: u16 = 0x48;

/// A string that an attribute refers to.
#[derive(Debug)]
pub struct Text {
    /// Whether the string lies in the supplementary object.
    pub supplementary: bool,
    /// The bytes, or what the parser said.
    pub value: Result<Vec<u8>, String>,
}

/// A numeric attribute by its form.
#[derive(Clone, Copy, Debug, PartialEq, Eq, Structural)]
pub enum Number {
    /// Index of a file.
    FileIndex(u64),
    /// Offset into a section.
    SectionOffset(u64),
    /// Offset into the line programs.
    LineOffset(u64),
    /// Plain unsigned number.
    Unsigned(u64),
    /// Anything that is no unsigned number.
    Other,
}

/// An attribute that refers to another entry.
#[derive(Clone, Copy, Debug, PartialEq, Eq, Structural)]
pub enum Reference {
    /// Entry of the same unit, by its offset in the unit.
    Unit(usize),
    /// Entry of any unit, by its offset in the debug information.
    DebugInfo(usize),
    /// Entry of the supplementary object, by its offset there.
    Supplementary(usize),
    /// A reference of another form.
    Other,
}

/// An address attribute.
#[derive(Debug)]
pub enum Address {
    /// The address.
    Known(u64),
    /// The attribute does not hold an address.
    Unknown,
    /// What the parser said.
    Failed(String),
}

/// A range of a range list.
#[derive(Clone, Copy, Debug, PartialEq, Eq, Structural)]
pub struct ListedRange {
    /// Inclusive start.
    pub begin: u64,
    /// Exclusive end.
    pub end: u64,
    /// Whether the start marks code that the linker removed.
    pub tombstone: bool,
}

/// The ranges of an entry.
#[derive(Debug)]
pub enum Ranges {
    /// What the parser said of the list as a whole.
    Failed(String),
    /// The ranges that could be read.
    Listed {
        /// The ranges in order.
        ranges: Vec<ListedRange>,
        /// What the parser said after them.
        failure: Option<String>,
    },
}

/// A debugging information entry.
#[derive(Debug)]
pub struct Entry {
    /// Offset in the unit.
    pub offset: usize,
    /// Nesting depth.
    pub depth: isize,
    /// Kind of the entry.
    pub tag: u16,
    /// `DW_AT_linkage_name`.
    pub linkage_name: Option<Text>,
    /// `DW_AT_MIPS_linkage_name`.
    pub mips_linkage_name: Option<Text>,
    /// `DW_AT_name`.
    pub name: Option<Text>,
    /// `DW_AT_abstract_origin`.
    pub abstract_origin: Option<Reference>,
    /// `DW_AT_specification`.
    pub specification: Option<Reference>,
    /// `DW_AT_decl_file`.
    pub decl_file: Option<Number>,
    /// `DW_AT_decl_line`.
    pub decl_line: Option<Number>,
    /// `DW_AT_call_file`.
    pub call_file: Option<Number>,
    /// `DW_AT_call_line`.
    pub call_line: Option<Number>,
    /// `DW_AT_call_return_pc`.
    pub call_return_pc: Option<Address>,
    /// `DW_AT_call_origin`.
    pub call_origin: Option<Reference>,
    /// `DW_AT_LLVM_stmt_sequence`.
    pub statement_sequence: Option<Number>,
    /// Address ranges.
    pub ranges: Ranges,
}

/// An entry that a reference leads to.
#[derive(Debug)]
pub struct Target {
    /// Offset in the unit.
    pub offset: usize,
    /// The entry, or what the parser said.
    pub entry: Result<Entry, String>,
}

/// A file of a line program.
#[derive(Debug)]
pub struct FileName {
    /// Name of the file.
    pub path: Text,
    /// Directory of the file.
    pub directory: Option<Text>,
}

/// A row of a line program.
#[derive(Clone, Copy, Debug, PartialEq, Eq)]
pub struct LineRow {
    /// Address.
    pub address: u64,
    /// Whether the row only ends its sequence.
    pub end_sequence: bool,
    /// Index of the file as the program writes it.
    pub file_index: u64,
    /// Place of the file among the files of the program.
    pub file: Option<usize>,
    /// Line number.
    pub line: Option<u64>,
}

/// A sequence of a line program.
#[derive(Debug)]
pub struct LineSequence {
    /// Inclusive start address.
    pub start: u64,
    /// Exclusive end address.
    pub end: u64,
    /// The rows that could be read.
    pub rows: Vec<LineRow>,
    /// What the parser said after them.
    pub failure: Option<String>,
}

/// A line program and its rows.
#[derive(Debug)]
pub struct LineProgram {
    /// Version of the program's format.
    pub version: u16,
    /// Whether the program uses the 64-bit format.
    pub dwarf64: bool,
    /// Offset of the program's header.
    pub offset: u64,
    /// Length of the header after the field that holds it.
    pub header_length: u64,
    /// First special opcode.
    pub opcode_base: u8,
    /// Numbers of operands of the standard opcodes.
    pub standard_opcode_lengths: Vec<u8>,
    /// The instructions.
    pub program: Vec<u8>,
    /// Number of files that the header lists.
    pub header_files: usize,
    /// Number of files with those that instructions define.
    pub listed_files: usize,
    /// The files: those of the header, those that instructions define, and last
    /// the one that the unit names, where index zero stands for it.
    pub files: Vec<FileName>,
    /// The sequences, or what the parser said.
    pub sequences: Result<Vec<LineSequence>, String>,
}

/// A unit of debugging information.
#[derive(Debug)]
pub struct Unit {
    /// Offset in the debug information, unless the unit lies elsewhere.
    pub offset: Option<usize>,
    /// Length with the header.
    pub length: usize,
    /// What the parser said of the unit.
    pub failure: Option<String>,
    /// Identifier of the split unit that this one stands for.
    pub dwo_id: Option<u64>,
    /// Whether the unit uses the 64-bit format.
    pub dwarf64: bool,
    /// The line program.
    pub line_program: Option<LineProgram>,
    /// The entries that could be read, in depth-first order.
    pub entries: Vec<Entry>,
    /// What the parser said after them.
    pub entries_failure: Option<String>,
    /// The entries that references of this or other units lead to.
    pub targets: Vec<Target>,
}

/// The units of an object.
#[derive(Debug)]
pub struct Units {
    /// The units that could be read.
    pub units: Vec<Unit>,
    /// What the parser said after them.
    pub failure: Option<String>,
}

/// The error of data that the DWARF parser rejected.
pub open spec fn rejected(source: String) -> ErrorView {
    ErrorView::Dwarf { source: source@ }
}

/// Turns what the DWARF parser said into an error.
pub fn dwarf_error(source: &String) -> (error: Error)
    ensures
        error@ == rejected(*source),
{
    Error::Dwarf { source: source.clone() }
}

/// The bytes of a string.
pub open spec fn text_bytes(text: Text, supplementary: bool) -> Result<Seq<u8>, ErrorView> {
    if text.supplementary && !supplementary {
        Ok(Seq::empty())
    } else {
        match text.value {
            Ok(bytes) => Ok(bytes@),
            Err(source) => Err(rejected(source)),
        }
    }
}

/// Returns the bytes of a string, and none for a string of a supplementary
/// object that is not there.
pub fn attribute_bytes(text: &Text, supplementary: bool) -> (result: Result<Vec<u8>, Error>)
    ensures
        match text_bytes(*text, supplementary) {
            Ok(bytes) => result matches Ok(copy) && copy@ == bytes,
            Err(view) => result matches Err(error) && error@ == view,
        },
{
    if text.supplementary && !supplementary {
        return Ok(Vec::new());
    }
    match &text.value {
        Ok(bytes) => Ok(copy_bytes(bytes.as_slice())),
        Err(source) => Err(dwarf_error(source)),
    }
}

/// The number of an attribute, if it is an unsigned one.
pub open spec fn unsigned_of(value: Option<Number>) -> Option<u64> {
    match value {
        Some(Number::Unsigned(number)) => Some(number),
        _ => None,
    }
}

/// The file index of an attribute, if it is one.
pub open spec fn file_index_of(value: Option<Number>) -> Option<u64> {
    match value {
        Some(Number::FileIndex(index)) => Some(index),
        Some(Number::Unsigned(index)) => Some(index),
        _ => None,
    }
}

/// Returns an attribute that holds an unsigned number.
pub fn unsigned_attribute(value: Option<Number>) -> (number: Option<u64>)
    ensures
        number == unsigned_of(value),
{
    match value {
        Some(Number::Unsigned(number)) => Some(number),
        _ => None,
    }
}

/// Returns an attribute that holds a file index.
pub fn file_index_attribute(value: Option<Number>) -> (index: Option<u64>)
    ensures
        index == file_index_of(value),
{
    match value {
        Some(Number::FileIndex(index)) => Some(index),
        Some(Number::Unsigned(index)) => Some(index),
        _ => None,
    }
}

/// The offset of an entry in the debug information.
pub open spec fn absolute_offset(unit: Unit, offset: usize) -> Result<usize, ErrorView> {
    match unit.offset {
        Some(base) => if base + offset <= usize::MAX {
            Ok((base + offset) as usize)
        } else {
            Err(ErrorView::Plain(Error::Overflow("DWARF entry offset")))
        },
        None => Err(ErrorView::Plain(Error::Overflow("DWARF entry offset"))),
    }
}

/// Returns the offset of an entry in the debug information.
pub fn absolute_entry_offset(unit: &Unit, offset: usize) -> (result: Result<usize, Error>)
    ensures
        match absolute_offset(*unit, offset) {
            Ok(absolute) => result == Ok::<usize, Error>(absolute),
            Err(view) => result matches Err(error) && error@ == view,
        },
{
    match unit.offset {
        Some(base) => match base.checked_add(offset) {
            Some(absolute) => Ok(absolute),
            None => Err(Error::Overflow("DWARF entry offset")),
        },
        None => Err(Error::Overflow("DWARF entry offset")),
    }
}

/// The statement sequence that an entry asks for.
pub open spec fn requested_sequence(value: Option<Number>, dwarf64: bool) -> Option<u64> {
    let offset = match value {
        Some(Number::SectionOffset(offset)) => Some(offset),
        Some(Number::LineOffset(offset)) => Some(offset),
        Some(Number::Unsigned(offset)) => Some(offset),
        _ => None,
    };
    let invalid = if dwarf64 {
        u64::MAX
    } else {
        u32::MAX as u64
    };
    match offset {
        Some(offset) if offset != invalid => Some(offset),
        _ => None,
    }
}

/// Returns the statement sequence that an entry asks for.
pub fn statement_sequence_offset(unit: &Unit, entry: &Entry) -> (offset: Option<u64>)
    ensures
        offset == requested_sequence(entry.statement_sequence, unit.dwarf64),
{
    let offset: u64 = match entry.statement_sequence {
        Some(Number::SectionOffset(offset)) => offset,
        Some(Number::LineOffset(offset)) => offset,
        Some(Number::Unsigned(offset)) => offset,
        _ => return None,
    };
    let invalid: u64 = if unit.dwarf64 {
        u64::MAX
    } else {
        u32::MAX as u64
    };
    if offset != invalid {
        Some(offset)
    } else {
        None
    }
}

/// An entry asks for the statement sequence at the offset that it gives, in whatever
/// form, unless all bits of the offset are set.
pub proof fn law_sequences_are_asked_for(value: Option<Number>, dwarf64: bool)
    ensures
        ({
            let unset = if dwarf64 {
                0xffff_ffff_ffff_ffffu64
            } else {
                0xffff_ffffu64
            };
            let given = |offset: u64|
                value == Some(Number::SectionOffset(offset)) || value == Some(
                    Number::LineOffset(offset),
                ) || value == Some(Number::Unsigned(offset));
            forall|offset: u64|
                requested_sequence(value, dwarf64) == Some(offset) <==> #[trigger] given(offset)
                    && offset != unset
        }),
{
}

/// A file is given by its index, or by a plain number.
pub proof fn law_files_are_given_by_numbers(value: Option<Number>)
    ensures
        forall|index: u64| #[trigger]
            file_index_of(value) == Some(index) <==> value == Some(Number::FileIndex(index))
                || value == Some(Number::Unsigned(index)),
{
}

} // verus!
