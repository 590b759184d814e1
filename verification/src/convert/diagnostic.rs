//! Issues that do not stop a conversion.
use vstd::prelude::*;
use vstd::string::*;

use crate::model::AddressRange;
use crate::text;
use crate::text::{push_decimal, push_hexadecimal};

verus! {

/// Non-fatal issue observed while importing ELF or DWARF data.
///
/// A warning means some input was skipped and conversion continued, so a report
/// carrying warnings is still usable. Anything that makes the whole conversion
/// impossible is an [`Error`](crate::error::Error) instead.
#[derive(Debug, PartialEq, Eq)]
#[allow(inconsistent_fields)]
pub enum ConversionWarning {
    /// Embedded mini-debug data was present but unusable.
    EmbeddedDebugData {
        /// Rejection reason.
        reason: String,
    },
    /// A debuginfod request or cache operation failed.
    Debuginfod {
        /// Server or cache endpoint involved, when known.
        endpoint: Option<String>,
        /// Failure description.
        reason: String,
    },
    /// Neither an individual DWO nor a packaged DWP supplied a skeleton unit.
    SplitDwarfUnavailable {
        /// Split-DWARF unit identifier.
        dwo_id: u64,
        /// Failures encountered while trying each source.
        reasons: Vec<String>,
    },
    /// Inline import was enabled but produced no valid inline records.
    NoInlineRecords,
    /// A DWARF range list contained malformed data.
    MalformedRanges {
        /// Whether parsing had to stop rather than skip one range.
        stopped: bool,
        /// Parser diagnostic.
        reason: String,
    },
    /// A DWARF range was invalid or outside live executable code.
    RejectedRange {
        /// Rejected virtual-address range.
        range: AddressRange,
    },
    /// `DW_AT_LLVM_stmt_sequence` did not identify a valid line sequence.
    InvalidStatementSequence {
        /// Absolute debug-info offset of the function DIE.
        die_offset: u64,
        /// Referenced line-program offset.
        sequence_offset: u64,
    },
    /// Executed line sequences could not be paired with scanned offsets.
    LineSequenceMismatch {
        /// Number of executed line sequences.
        sequences: usize,
        /// Number of scanned sequence offsets.
        offsets: usize,
    },
    /// A line row referenced a missing file-table entry.
    MissingLineFile {
        /// Row address.
        address: u64,
        /// Missing DWARF file index.
        index: u64,
    },
    /// A line number could not fit the GSYM `u32` field.
    UnrepresentableLine {
        /// Row address.
        address: u64,
        /// Original DWARF line number.
        line: u64,
    },
    /// An inline DIE referenced a missing call-site file.
    MissingInlineCallFile {
        /// Absolute debug-info offset of the inline DIE.
        die_offset: u64,
        /// Missing DWARF file index.
        index: u64,
    },
    /// An inline call line could not fit the GSYM `u32` field.
    InvalidInlineCallLine {
        /// Absolute debug-info offset of the inline DIE.
        die_offset: u64,
        /// Original DWARF line number.
        line: u64,
    },
    /// A declaration location referenced a missing file.
    InvalidDeclarationFile {
        /// Absolute debug-info offset of the function DIE.
        die_offset: u64,
        /// Missing DWARF file index.
        index: u64,
    },
    /// A declaration line could not fit the GSYM `u32` field.
    InvalidDeclarationLine {
        /// Absolute debug-info offset of the function DIE.
        die_offset: u64,
        /// Original DWARF line number.
        line: u64,
    },
}

/// What a warning says, with its texts as characters.
pub enum WarningView {
    /// A warning without texts of its own.
    Plain(ConversionWarning),
    /// Unusable mini-debug data.
    EmbeddedDebugData {
        /// Rejection reason.
        reason: Seq<char>,
    },
    /// A failed debuginfod request or cache operation.
    Debuginfod {
        /// Server or cache endpoint involved, when known.
        endpoint: Option<Seq<char>>,
        /// Failure description.
        reason: Seq<char>,
    },
    /// A skeleton unit without its split data.
    SplitDwarfUnavailable {
        /// Split-DWARF unit identifier.
        dwo_id: u64,
        /// Failures encountered while trying each source.
        reasons: Seq<Seq<char>>,
    },
    /// A malformed range list.
    MalformedRanges {
        /// Whether parsing had to stop rather than skip one range.
        stopped: bool,
        /// Parser diagnostic.
        reason: Seq<char>,
    },
}

/// The characters of texts.
pub open spec fn texts(strings: Seq<String>) -> Seq<Seq<char>> {
    Seq::new(strings.len(), |i: int| strings[i]@)
}

impl View for ConversionWarning {
    type V = WarningView;

    open spec fn view(&self) -> WarningView {
        match *self {
            ConversionWarning::EmbeddedDebugData { reason } => WarningView::EmbeddedDebugData {
                reason: reason@,
            },
            ConversionWarning::Debuginfod { endpoint, reason } => WarningView::Debuginfod {
                endpoint: match endpoint {
                    Some(endpoint) => Some(endpoint@),
                    None => None,
                },
                reason: reason@,
            },
            ConversionWarning::SplitDwarfUnavailable {
                dwo_id,
                reasons,
            } => WarningView::SplitDwarfUnavailable { dwo_id, reasons: texts(reasons@) },
            ConversionWarning::MalformedRanges { stopped, reason } => WarningView::MalformedRanges {
                stopped,
                reason: reason@,
            },
            other => WarningView::Plain(other),
        }
    }
}

/// What a list of warnings says.
pub open spec fn warning_views(warnings: Seq<ConversionWarning>) -> Seq<WarningView> {
    Seq::new(warnings.len(), |i: int| warnings[i]@)
}

/// Adding a warning adds what it says.
pub proof fn lemma_warning_pushed(warnings: Seq<ConversionWarning>, warning: ConversionWarning)
    ensures
        warning_views(warnings.push(warning)) == warning_views(warnings).push(warning@),
{
    assert(warning_views(warnings.push(warning)) =~= warning_views(warnings).push(warning@));
}

/// The first `count` reasons, each after its separator.
pub open spec fn reasons_text(reasons: Seq<Seq<char>>, count: nat) -> Seq<char>
    decreases count,
{
    if count == 0 {
        Seq::empty()
    } else {
        reasons_text(reasons, (count - 1) as nat) + (if count == 1 {
            ": "@
        } else {
            "; "@
        }) + reasons[count - 1]
    }
}

/// The message of a warning without texts of its own.
pub open spec fn plain_message(warning: ConversionWarning) -> Seq<char> {
    match warning {
        ConversionWarning::NoInlineRecords => "no valid DWARF inline records were found"@,
        ConversionWarning::RejectedRange { range } => "skipping non-live or invalid DWARF range "@
            + text::hexadecimal(range.start as nat) + ".."@ + text::hexadecimal(range.end as nat),
        ConversionWarning::InvalidStatementSequence { die_offset, sequence_offset } =>
            "function DIE at "@ + text::hexadecimal(die_offset as nat)
            + " has an invalid DW_AT_LLVM_stmt_sequence value "@ + text::hexadecimal(
            sequence_offset as nat,
        ) + "; using matching rows from other sequences"@,
        ConversionWarning::LineSequenceMismatch { sequences, offsets } => "could not associate "@
            + text::decimal(sequences as nat) + " line sequences with "@ + text::decimal(
            offsets as nat,
        ) + " statement-sequence offsets"@,
        ConversionWarning::MissingLineFile { address, index } => "ignoring DWARF line row at "@
            + text::hexadecimal(address as nat) + " with missing file index "@ + text::decimal(
            index as nat,
        ),
        ConversionWarning::UnrepresentableLine { address, line } => "ignoring DWARF line row at "@
            + text::hexadecimal(address as nat) + " with unrepresentable line number "@
            + text::decimal(line as nat),
        ConversionWarning::MissingInlineCallFile { die_offset, index } => "inline DIE at "@
            + text::hexadecimal(die_offset as nat) + " references missing DW_AT_call_file index "@
            + text::decimal(index as nat),
        ConversionWarning::InvalidInlineCallLine { die_offset, line } => "inline DIE at "@
            + text::hexadecimal(die_offset as nat)
            + " has unrepresentable DW_AT_call_line value "@ + text::decimal(line as nat),
        ConversionWarning::InvalidDeclarationFile { die_offset, index } => "function DIE at "@
            + text::hexadecimal(die_offset as nat) + " has invalid DW_AT_decl_file index "@
            + text::decimal(index as nat),
        ConversionWarning::InvalidDeclarationLine { die_offset, line } => "function DIE at "@
            + text::hexadecimal(die_offset as nat)
            + " has unrepresentable DW_AT_decl_line value "@ + text::decimal(line as nat),
        _ => Seq::empty(),
    }
}

/// The message of a warning.
pub open spec fn message_of(warning: WarningView) -> Seq<char> {
    match warning {
        WarningView::Plain(plain) => plain_message(plain),
        WarningView::EmbeddedDebugData { reason } => "ignoring malformed .gnu_debugdata: "@
            + reason,
        WarningView::Debuginfod { endpoint, reason } => "debuginfod"@ + (match endpoint {
            Some(endpoint) => " "@ + endpoint,
            None => Seq::empty(),
        }) + ": "@ + reason,
        WarningView::SplitDwarfUnavailable { dwo_id, reasons } => "split DWARF unit "@
            + text::hexadecimal(dwo_id as nat) + " has no usable .dwo or .dwp data"@
            + reasons_text(reasons, reasons.len()),
        WarningView::MalformedRanges { stopped, reason } => (if stopped {
            "stopped at"@
        } else {
            "skipping"@
        }) + " malformed DWARF ranges: "@ + reason,
    }
}

/// A text, an address and a text after it.
fn located(before: &str, address: u64, after: &str) -> (output: String)
    ensures
        output@ == before@ + text::hexadecimal(address as nat) + after@,
{
    let mut output = String::new();
    output.append(before);
    assert(output@ =~= before@);
    push_hexadecimal(&mut output, address);
    output.append(after);
    output
}

/// A text, an address, a text and a number.
fn located_number(before: &str, address: u64, between: &str, number: u64) -> (output: String)
    ensures
        output@ == before@ + text::hexadecimal(address as nat) + between@ + text::decimal(
            number as nat,
        ),
{
    let mut output = located(before, address, between);
    push_decimal(&mut output, number);
    output
}

fn push_reasons(output: &mut String, reasons: &Vec<String>)
    ensures
        final(output)@ == old(output)@ + reasons_text(texts(reasons@), reasons@.len()),
{
    let ghost start = output@;
    let ghost said = texts(reasons@);
    let mut i: usize = 0;
    assert(start + Seq::<char>::empty() =~= start);
    while i < reasons.len()
        invariant
            i <= reasons@.len(),
            said == texts(reasons@),
            output@ == start + reasons_text(said, i as nat),
        decreases reasons@.len() - i,
    {
        let ghost before = reasons_text(said, i as nat);
        if i == 0 {
            output.append(": ");
        } else {
            output.append("; ");
        }
        output.append(reasons[i].as_str());
        proof {
            let separator = if i == 0 {
                ": "@
            } else {
                "; "@
            };
            assert(said[i as int] == reasons@[i as int]@);
            assert(start + before + separator + said[i as int] =~= start + (before + separator
                + said[i as int]));
        }
        i = i + 1;
    }
}

impl ConversionWarning {
    /// Renders the warning as one line.
    pub fn message(&self) -> (output: String)
        ensures
            output@ == message_of(self@),
    {
        match self {
            ConversionWarning::EmbeddedDebugData { reason } => {
                let mut output = String::new();
                output.append("ignoring malformed .gnu_debugdata: ");
                output.append(reason.as_str());
                assert(output@ =~= message_of(self@));
                output
            },
            ConversionWarning::Debuginfod { endpoint, reason } => {
                let mut output = String::new();
                output.append("debuginfod");
                if let Some(endpoint) = endpoint {
                    output.append(" ");
                    output.append(endpoint.as_str());
                }
                output.append(": ");
                output.append(reason.as_str());
                assert(output@ =~= message_of(self@));
                output
            },
            ConversionWarning::SplitDwarfUnavailable { dwo_id, reasons } => {
                let mut output = located(
                    "split DWARF unit ",
                    *dwo_id,
                    " has no usable .dwo or .dwp data",
                );
                push_reasons(&mut output, reasons);
                output
            },
            ConversionWarning::NoInlineRecords => {
                let mut output = String::new();
                output.append("no valid DWARF inline records were found");
                assert(output@ =~= message_of(self@));
                output
            },
            ConversionWarning::MalformedRanges { stopped, reason } => {
                let mut output = String::new();
                if *stopped {
                    output.append("stopped at");
                } else {
                    output.append("skipping");
                }
                output.append(" malformed DWARF ranges: ");
                output.append(reason.as_str());
                assert(output@ =~= message_of(self@));
                output
            },
            ConversionWarning::RejectedRange { range } => {
                let mut output = located(
                    "skipping non-live or invalid DWARF range ",
                    range.start,
                    "..",
                );
                push_hexadecimal(&mut output, range.end);
                output
            },
            ConversionWarning::InvalidStatementSequence { die_offset, sequence_offset } => {
                let mut output = located(
                    "function DIE at ",
                    *die_offset,
                    " has an invalid DW_AT_LLVM_stmt_sequence value ",
                );
                push_hexadecimal(&mut output, *sequence_offset);
                output.append("; using matching rows from other sequences");
                output
            },
            ConversionWarning::LineSequenceMismatch { sequences, offsets } => {
                let mut output = String::new();
                output.append("could not associate ");
                assert(output@ =~= "could not associate "@);
                push_decimal(&mut output, *sequences as u64);
                output.append(" line sequences with ");
                push_decimal(&mut output, *offsets as u64);
                output.append(" statement-sequence offsets");
                output
            },
            ConversionWarning::MissingLineFile { address, index } => located_number(
                "ignoring DWARF line row at ",
                *address,
                " with missing file index ",
                *index,
            ),
            ConversionWarning::UnrepresentableLine { address, line } => located_number(
                "ignoring DWARF line row at ",
                *address,
                " with unrepresentable line number ",
                *line,
            ),
            ConversionWarning::MissingInlineCallFile { die_offset, index } => located_number(
                "inline DIE at ",
                *die_offset,
                " references missing DW_AT_call_file index ",
                *index,
            ),
            ConversionWarning::InvalidInlineCallLine { die_offset, line } => located_number(
                "inline DIE at ",
                *die_offset,
                " has unrepresentable DW_AT_call_line value ",
                *line,
            ),
            ConversionWarning::InvalidDeclarationFile { die_offset, index } => located_number(
                "function DIE at ",
                *die_offset,
                " has invalid DW_AT_decl_file index ",
                *index,
            ),
            ConversionWarning::InvalidDeclarationLine { die_offset, line } => located_number(
                "function DIE at ",
                *die_offset,
                " has unrepresentable DW_AT_decl_line value ",
                *line,
            ),
        }
    }
}

} // verus!
