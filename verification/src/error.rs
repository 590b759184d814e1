//! Errors of the library.
use vstd::prelude::*;
use vstd::string::*;

use crate::text;
use crate::text::{push_decimal, push_eight_digits};

verus! {

/// Identifies an ELF input in conversion diagnostics.
#[derive(Clone, Copy, Debug, PartialEq, Eq, Structural)]
pub enum ElfInputKind {
    /// Linked executable or shared-object image.
    Image,
    /// Main DWARF-bearing debug file.
    Debug,
    /// Symbol-table input.
    Symbols,
    /// Supplementary DWARF object referenced by the main debug file.
    Supplementary,
    /// Packaged split-DWARF file.
    Dwp,
    /// Individual split-DWARF object.
    Dwo,
    /// Mini debug ELF extracted from `.gnu_debugdata`.
    EmbeddedDebugData,
}

/// Property by which a companion ELF disagrees with its linked image.
#[derive(Clone, Copy, Debug, PartialEq, Eq, Structural)]
pub enum CompanionMismatch {
    /// Machine architecture, address size, or byte order differs.
    Architecture,
    /// GNU build ID differs.
    BuildId,
}

/// What is wrong with malformed data.
#[derive(Debug, PartialEq, Eq)]
pub enum Detail {
    /// A fixed explanation.
    Text(&'static str),
    /// Adding a line delta leaves the range of line numbers.
    LineOutsideU32 {
        /// Line before the addition.
        line: u32,
        /// Delta that was to be added.
        delta: i64,
    },
    /// An explanation put together from the data.
    Described(String),
}

/// Errors produced while parsing, building, or writing GSYM data.
#[derive(Debug, PartialEq, Eq)]
#[allow(inconsistent_fields)]
pub enum Error {
    /// A read required bytes beyond the end of the input.
    UnexpectedEof {
        /// Byte offset at which the read began.
        offset: usize,
        /// Number of bytes requested.
        needed: usize,
        /// Number of bytes still available.
        remaining: usize,
    },
    /// Integer arithmetic overflowed while computing the named value.
    Overflow(&'static str),
    /// A numeric field exceeded its format-defined maximum.
    OutOfRange {
        /// Name of the invalid field.
        field: &'static str,
        /// Observed value.
        value: u64,
        /// Inclusive maximum accepted value.
        max: u64,
    },
    /// A requested address-table function index does not exist.
    FunctionIndexOutOfBounds {
        /// Requested zero-based index.
        index: usize,
        /// Number of indexed functions.
        count: usize,
    },
    /// The input does not begin with the GSYM magic in either byte order.
    InvalidMagic(u32),
    /// The input uses a GSYM version this crate does not implement.
    UnsupportedVersion(u16),
    /// The address-offset width is illegal for the selected format version.
    InvalidAddressOffsetSize {
        /// GSYM version whose width rules apply.
        version: u16,
        /// Encoded width in bytes.
        size: u8,
    },
    /// GSYM v2 requested an unsupported string-table encoding.
    UnsupportedStringTableEncoding(u8),
    /// A GSYM v1 build identifier exceeds its fixed 20-byte field.
    InvalidUuidSize(usize),
    /// A requested GSYM v1 build identifier exceeds its fixed 20-byte field.
    V1BuildIdTooLong {
        /// Requested build-identifier size.
        size: usize,
    },
    /// A required GSYM v2 global-data section is absent.
    MissingSection(u32),
    /// A GSYM v2 global-data section type appears more than once.
    DuplicateSection(u32),
    /// A required GSYM v2 section has an empty byte range.
    ZeroSizedSection {
        /// Numeric global-data section type.
        section_type: u32,
    },
    /// A GSYM v2 section extends outside the input.
    SectionOutOfBounds {
        /// Numeric global-data section type.
        section_type: u32,
        /// Absolute file offset.
        offset: u64,
        /// Declared section size.
        size: u64,
        /// Actual input length.
        input_len: usize,
    },
    /// A referenced absolute file offset is outside the input.
    InvalidOffset {
        /// Referenced file offset.
        offset: u64,
        /// Actual input length.
        input_len: usize,
    },
    /// A requested binary alignment is zero or unsupported.
    InvalidAlignment(usize),
    /// An unsigned LEB128 value is truncated, overlong, or too wide.
    MalformedUleb {
        /// Offset of the first encoded byte.
        offset: usize,
        /// Static validation failure description.
        reason: &'static str,
    },
    /// A signed LEB128 value is truncated, overlong, or too wide.
    MalformedSleb {
        /// Offset of the first encoded byte.
        offset: usize,
        /// Static validation failure description.
        reason: &'static str,
    },
    /// Full decoding encountered a `FunctionInfo` record type it cannot preserve.
    UnsupportedInfoType(u32),
    /// A function or inline record references string-table offset zero as its name.
    ZeroNameOffset,
    /// The input violates a GSYM format rule.
    InvalidFormat(&'static str),
    /// A value handed to the builder or writer is not valid.
    InvalidModel(&'static str),
    /// A count, size, or nesting depth exceeds an implementation or wire limit.
    Limit {
        /// Value being bounded.
        context: &'static str,
        /// Observed value.
        value: u64,
        /// Inclusive supported limit.
        limit: u64,
    },
    /// Contextual malformed-data diagnostic.
    Malformed {
        /// Data structure or input being parsed.
        context: &'static str,
        /// Detailed validation failure.
        detail: Detail,
    },
    /// The object-file parser rejected an ELF input.
    Object {
        /// Role of the rejected ELF input.
        input: ElfInputKind,
        /// What the parser said.
        source: String,
    },
    /// The DWARF parser rejected malformed DWARF data.
    Dwarf {
        /// What the parser said.
        source: String,
    },
    /// A conversion input is a supported object format other than ELF.
    NotElf {
        /// Role of the non-ELF input.
        input: ElfInputKind,
    },
    /// A separate debug, symbol, or package file does not match the image.
    CompanionMismatch {
        /// Role of the mismatching companion.
        input: ElfInputKind,
        /// Identity property that differs.
        mismatch: CompanionMismatch,
    },
    /// A 64-bit semantic model cannot be narrowed into GSYM v1 fields.
    V1LimitExceeded {
        /// Field that cannot be represented.
        field: &'static str,
        /// Value requiring more than 32 bits.
        value: u64,
    },
}

/// What an error says, with its texts as characters.
pub enum ErrorView {
    /// An error without texts of its own.
    Plain(Error),
    /// Malformed data with an explanation put together from the data.
    Malformed {
        /// Data structure or input being parsed.
        context: &'static str,
        /// Detailed validation failure.
        detail: Seq<char>,
    },
    /// An ELF input that the object-file parser rejected.
    Object {
        /// Role of the rejected ELF input.
        input: ElfInputKind,
        /// What the parser said.
        source: Seq<char>,
    },
    /// DWARF data that the DWARF parser rejected.
    Dwarf {
        /// What the parser said.
        source: Seq<char>,
    },
}

impl View for Error {
    type V = ErrorView;

    open spec fn view(&self) -> ErrorView {
        match *self {
            Error::Malformed { context, detail: Detail::Described(text) } => ErrorView::Malformed {
                context,
                detail: text@,
            },
            Error::Object { input, source } => ErrorView::Object { input, source: source@ },
            Error::Dwarf { source } => ErrorView::Dwarf { source: source@ },
            other => ErrorView::Plain(other),
        }
    }
}

/// The name of an ELF input in a message.
pub open spec fn input_text(input: ElfInputKind) -> Seq<char> {
    match input {
        ElfInputKind::Image => "ELF image"@,
        ElfInputKind::Debug => "ELF debug file"@,
        ElfInputKind::Symbols => "ELF symbol file"@,
        ElfInputKind::Supplementary => "supplementary ELF debug file"@,
        ElfInputKind::Dwp => "DWP file"@,
        ElfInputKind::Dwo => "DWO file"@,
        ElfInputKind::EmbeddedDebugData => ".gnu_debugdata ELF"@,
    }
}

/// The name of a disagreement in a message.
pub open spec fn mismatch_text(mismatch: CompanionMismatch) -> Seq<char> {
    match mismatch {
        CompanionMismatch::Architecture => "architecture"@,
        CompanionMismatch::BuildId => "build ID"@,
    }
}

impl ElfInputKind {
    /// Names the input in a message.
    pub fn text(&self) -> (text: &'static str)
        ensures
            text@ == input_text(*self),
    {
        match self {
            ElfInputKind::Image => "ELF image",
            ElfInputKind::Debug => "ELF debug file",
            ElfInputKind::Symbols => "ELF symbol file",
            ElfInputKind::Supplementary => "supplementary ELF debug file",
            ElfInputKind::Dwp => "DWP file",
            ElfInputKind::Dwo => "DWO file",
            ElfInputKind::EmbeddedDebugData => ".gnu_debugdata ELF",
        }
    }
}

impl CompanionMismatch {
    /// Names the disagreement in a message.
    pub fn text(&self) -> (text: &'static str)
        ensures
            text@ == mismatch_text(*self),
    {
        match self {
            CompanionMismatch::Architecture => "architecture",
            CompanionMismatch::BuildId => "build ID",
        }
    }
}

/// The decimal text of a signed number.
pub open spec fn signed(number: i64) -> Seq<char> {
    if number < 0 {
        "-"@ + text::decimal((-number) as nat)
    } else {
        text::decimal(number as nat)
    }
}

/// The explanation of malformed data.
pub open spec fn detail_text(detail: Detail) -> Seq<char> {
    match detail {
        Detail::Text(text) => text@,
        Detail::LineOutsideU32 { line, delta } => "line calculation is outside u32: "@
            + text::decimal(line as nat) + " + "@ + signed(delta),
        Detail::Described(text) => text@,
    }
}

/// The message of an error, variant by variant.
pub open spec fn plain_message(error: Error) -> Seq<char> {
    match error {
        Error::UnexpectedEof { offset, needed, remaining } => "unexpected end of input at offset "@
            + text::decimal(offset as nat) + ": need "@ + text::decimal(needed as nat)
            + " bytes, have "@ + text::decimal(remaining as nat),
        Error::Overflow(value) => "integer overflow while computing "@ + value@,
        Error::OutOfRange { field, value, max } => "invalid "@ + field@ + " value "@
            + text::decimal(value as nat) + "; maximum is "@ + text::decimal(max as nat),
        Error::FunctionIndexOutOfBounds { index, count } => "function index "@ + text::decimal(
            index as nat,
        ) + " is out of bounds for "@ + text::decimal(count as nat) + " functions"@,
        Error::InvalidMagic(magic) => "invalid GSYM magic 0x"@ + text::eight_digits(magic),
        Error::UnsupportedVersion(version) => "unsupported GSYM version "@ + text::decimal(
            version as nat,
        ),
        Error::InvalidAddressOffsetSize { version, size } => "invalid address offset size "@
            + text::decimal(size as nat) + " for GSYM v"@ + text::decimal(version as nat),
        Error::UnsupportedStringTableEncoding(encoding) => "unsupported string table encoding "@
            + text::decimal(encoding as nat),
        Error::InvalidUuidSize(size) => "invalid UUID size "@ + text::decimal(size as nat)
            + "; GSYM v1 supports at most 20 bytes"@,
        Error::V1BuildIdTooLong { size } => "GSYM v1 build identifier is "@ + text::decimal(
            size as nat,
        ) + " bytes; maximum is 20 bytes"@,
        Error::MissingSection(section) => "missing required GSYM section type "@ + text::decimal(
            section as nat,
        ),
        Error::DuplicateSection(section) => "duplicate GSYM section type "@ + text::decimal(
            section as nat,
        ),
        Error::ZeroSizedSection { section_type } => "GSYM section type "@ + text::decimal(
            section_type as nat,
        ) + " has zero size"@,
        Error::SectionOutOfBounds { section_type, offset, size, input_len } => "GSYM section type "@
            + text::decimal(section_type as nat) + " is outside the input: offset="@
            + text::decimal(offset as nat) + ", size="@ + text::decimal(size as nat) + ", input="@
            + text::decimal(input_len as nat),
        Error::InvalidOffset { offset, input_len } => "invalid offset "@ + text::decimal(
            offset as nat,
        ) + " for input of "@ + text::decimal(input_len as nat) + " bytes"@,
        Error::InvalidAlignment(alignment) => "invalid alignment "@ + text::decimal(
            alignment as nat,
        ),
        Error::MalformedUleb { offset, reason } => "malformed unsigned LEB128 at offset "@
            + text::decimal(offset as nat) + ": "@ + reason@,
        Error::MalformedSleb { offset, reason } => "malformed signed LEB128 at offset "@
            + text::decimal(offset as nat) + ": "@ + reason@,
        Error::UnsupportedInfoType(kind) => "unsupported FunctionInfo type "@ + text::decimal(
            kind as nat,
        ),
        Error::ZeroNameOffset => "FunctionInfo name offset must not be zero"@,
        Error::InvalidFormat(rule) => "invalid GSYM data: "@ + rule@,
        Error::InvalidModel(rule) => "invalid GSYM model: "@ + rule@,
        Error::Limit { context, value, limit } => context@ + " value "@ + text::decimal(
            value as nat,
        ) + " exceeds the supported limit of "@ + text::decimal(limit as nat),
        Error::V1LimitExceeded { field, value } => "GSYM v1 limit exceeded for "@ + field@ + ": "@
            + text::decimal(value as nat) + "; write version 2 explicitly"@,
        Error::Malformed { context, detail } => "malformed "@ + context@ + ": "@ + detail_text(
            detail,
        ),
        Error::NotElf { input } => input_text(input) + " is not an ELF file"@,
        Error::CompanionMismatch { input, mismatch } => input_text(input) + " "@ + mismatch_text(
            mismatch,
        ) + " does not match the linked image"@,
        Error::Object { input, source } => "failed to parse "@ + input_text(input) + ": "@
            + source@,
        Error::Dwarf { source } => "malformed DWARF: "@ + source@,
    }
}

/// The message of an error.
pub open spec fn message_of(error: ErrorView) -> Seq<char> {
    match error {
        ErrorView::Plain(plain) => plain_message(plain),
        ErrorView::Malformed { context, detail } => "malformed "@ + context@ + ": "@ + detail,
        ErrorView::Object { input, source } => "failed to parse "@ + input_text(input) + ": "@
            + source,
        ErrorView::Dwarf { source } => "malformed DWARF: "@ + source,
    }
}

fn push_signed(output: &mut String, number: i64)
    ensures
        final(output)@ == old(output)@ + signed(number),
{
    let ghost start = output@;
    if number < 0 {
        output.append("-");
        let size: u64 = if number == i64::MIN {
            0x8000_0000_0000_0000
        } else {
            (-number) as u64
        };
        push_decimal(output, size);
        assert(start + "-"@ + text::decimal((-number) as nat) =~= start + signed(number));
    } else {
        push_decimal(output, number as u64);
    }
}

/// Starts a text.
fn started(text: &str) -> (output: String)
    ensures
        output@ == text@,
{
    let mut output = String::new();
    output.append(text);
    assert(output@ =~= text@);
    output
}

/// A text, a number and a text after it.
fn with_number(before: &str, number: u64, after: &str) -> (output: String)
    ensures
        output@ == before@ + text::decimal(number as nat) + after@,
{
    let mut output = started(before);
    push_decimal(&mut output, number);
    output.append(after);
    output
}

/// A text with a number at its end.
fn numbered(before: &str, number: u64) -> (output: String)
    ensures
        output@ == before@ + text::decimal(number as nat),
{
    let mut output = started(before);
    push_decimal(&mut output, number);
    output
}

/// A text, a number, a text and a number.
fn twice_numbered(before: &str, first: u64, between: &str, second: u64) -> (output: String)
    ensures
        output@ == before@ + text::decimal(first as nat) + between@ + text::decimal(second as nat),
{
    let mut output = with_number(before, first, between);
    push_decimal(&mut output, second);
    output
}

/// Two texts after one another.
fn paired(first: &str, second: &str) -> (output: String)
    ensures
        output@ == first@ + second@,
{
    let mut output = started(first);
    output.append(second);
    output
}

impl Detail {
    /// Says what is wrong.
    pub fn text(&self) -> (output: String)
        ensures
            output@ == detail_text(*self),
    {
        match self {
            Detail::Text(text) => started(text),
            Detail::LineOutsideU32 { line, delta } => {
                let mut output = with_number(
                    "line calculation is outside u32: ",
                    *line as u64,
                    " + ",
                );
                push_signed(&mut output, *delta);
                output
            },
            Detail::Described(text) => started(text.as_str()),
        }
    }
}

impl Error {
    /// Renders the full context of the error.
    pub fn message(&self) -> (output: String)
        ensures
            output@ == message_of(self@),
    {
        match self {
            Error::UnexpectedEof { offset, needed, remaining } => {
                let mut output = twice_numbered(
                    "unexpected end of input at offset ",
                    *offset as u64,
                    ": need ",
                    *needed as u64,
                );
                output.append(" bytes, have ");
                push_decimal(&mut output, *remaining as u64);
                output
            },
            Error::Overflow(value) => paired("integer overflow while computing ", value),
            Error::OutOfRange { field, value, max } => {
                let mut output = paired("invalid ", field);
                output.append(" value ");
                push_decimal(&mut output, *value);
                output.append("; maximum is ");
                push_decimal(&mut output, *max);
                output
            },
            Error::FunctionIndexOutOfBounds { index, count } => {
                let mut output = twice_numbered(
                    "function index ",
                    *index as u64,
                    " is out of bounds for ",
                    *count as u64,
                );
                output.append(" functions");
                output
            },
            Error::InvalidMagic(magic) => {
                let mut output = started("invalid GSYM magic 0x");
                push_eight_digits(&mut output, *magic);
                output
            },
            Error::UnsupportedVersion(version) => numbered(
                "unsupported GSYM version ",
                *version as u64,
            ),
            Error::InvalidAddressOffsetSize { version, size } => twice_numbered(
                "invalid address offset size ",
                *size as u64,
                " for GSYM v",
                *version as u64,
            ),
            Error::UnsupportedStringTableEncoding(encoding) => numbered(
                "unsupported string table encoding ",
                *encoding as u64,
            ),
            Error::InvalidUuidSize(size) => with_number(
                "invalid UUID size ",
                *size as u64,
                "; GSYM v1 supports at most 20 bytes",
            ),
            Error::V1BuildIdTooLong { size } => with_number(
                "GSYM v1 build identifier is ",
                *size as u64,
                " bytes; maximum is 20 bytes",
            ),
            Error::MissingSection(section) => numbered(
                "missing required GSYM section type ",
                *section as u64,
            ),
            Error::DuplicateSection(section) => numbered(
                "duplicate GSYM section type ",
                *section as u64,
            ),
            Error::ZeroSizedSection { section_type } => with_number(
                "GSYM section type ",
                *section_type as u64,
                " has zero size",
            ),
            Error::SectionOutOfBounds { section_type, offset, size, input_len } => {
                let mut output = twice_numbered(
                    "GSYM section type ",
                    *section_type as u64,
                    " is outside the input: offset=",
                    *offset,
                );
                output.append(", size=");
                push_decimal(&mut output, *size);
                output.append(", input=");
                push_decimal(&mut output, *input_len as u64);
                output
            },
            Error::InvalidOffset { offset, input_len } => {
                let mut output = twice_numbered(
                    "invalid offset ",
                    *offset,
                    " for input of ",
                    *input_len as u64,
                );
                output.append(" bytes");
                output
            },
            Error::InvalidAlignment(alignment) => numbered(
                "invalid alignment ",
                *alignment as u64,
            ),
            Error::MalformedUleb { offset, reason } => {
                let mut output = with_number(
                    "malformed unsigned LEB128 at offset ",
                    *offset as u64,
                    ": ",
                );
                output.append(reason);
                output
            },
            Error::MalformedSleb { offset, reason } => {
                let mut output = with_number(
                    "malformed signed LEB128 at offset ",
                    *offset as u64,
                    ": ",
                );
                output.append(reason);
                output
            },
            Error::UnsupportedInfoType(kind) => numbered(
                "unsupported FunctionInfo type ",
                *kind as u64,
            ),
            Error::ZeroNameOffset => started("FunctionInfo name offset must not be zero"),
            Error::InvalidFormat(rule) => paired("invalid GSYM data: ", rule),
            Error::InvalidModel(rule) => paired("invalid GSYM model: ", rule),
            Error::Limit { context, value, limit } => {
                let mut output = paired(context, " value ");
                push_decimal(&mut output, *value);
                output.append(" exceeds the supported limit of ");
                push_decimal(&mut output, *limit);
                output
            },
            Error::V1LimitExceeded { field, value } => {
                let mut output = paired("GSYM v1 limit exceeded for ", field);
                output.append(": ");
                push_decimal(&mut output, *value);
                output.append("; write version 2 explicitly");
                output
            },
            Error::Malformed { context, detail } => {
                let mut output = paired("malformed ", context);
                output.append(": ");
                output.append(detail.text().as_str());
                output
            },
            Error::NotElf { input } => paired(input.text(), " is not an ELF file"),
            Error::CompanionMismatch { input, mismatch } => {
                let mut output = paired(input.text(), " ");
                output.append(mismatch.text());
                output.append(" does not match the linked image");
                output
            },
            Error::Object { input, source } => {
                let mut output = paired("failed to parse ", input.text());
                output.append(": ");
                output.append(source.as_str());
                output
            },
            Error::Dwarf { source } => paired("malformed DWARF: ", source.as_str()),
        }
    }
}

} // verus!
