//! Sequences of a DWARF line program.
use vstd::prelude::*;
use crate::error::{Detail, Error};
use crate::format::leb;

verus! {

/// Standard opcode that appends a row.
pub const DW_LNS_COPY: u8 = 1;

/// Standard opcode that flips the statement flag.
pub const DW_LNS_NEGATE_STMT: u8 = 6;

/// Standard opcode that sets the basic-block flag.
pub const DW_LNS_SET_BASIC_BLOCK: u8 = 7;

/// Standard opcode that advances the address by a constant.
pub const DW_LNS_CONST_ADD_PC: u8 = 8;

/// Standard opcode whose operand is two bytes.
pub const DW_LNS_FIXED_ADVANCE_PC: u8 = 9;

/// Standard opcode that sets the prologue flag.
pub const DW_LNS_SET_PROLOGUE_END: u8 = 10;

/// Standard opcode that sets the epilogue flag.
pub const DW_LNS_SET_EPILOGUE_BEGIN: u8 = 11;

/// Extended opcode that ends a sequence.
pub const DW_LNE_END_SEQUENCE: u8 = 1;

/// Most bytes of an operand.
pub const OPERAND_BYTES: usize = 10;

/// The error of a malformed line program.
pub open spec fn program_error(text: &'static str) -> Error {
    Error::Malformed { context: "DWARF line program", detail: Detail::Text(text) }
}

fn malformed(text: &'static str) -> (error: Error)
    ensures
        error == program_error(text),
{
    Error::Malformed { context: "DWARF line program", detail: Detail::Text(text) }
}

/// Outcome of reading the groups from index `index` on of an operand, where
/// `sum` is the value of the groups before.
pub open spec fn operand_groups(program: Seq<u8>, pos: int, index: nat, sum: nat) -> Result<
    (u64, int),
    Error,
>
    decreases 10 - index,
{
    if index >= 10 {
        Err(program_error("overlong ULEB128 operand"))
    } else if pos >= program.len() {
        Err(program_error("truncated instruction"))
    } else {
        let payload = (program[pos] % 128) as nat;
        if index == 9 && payload > 1 {
            Err(program_error("overflowing ULEB128 operand"))
        } else {
            let value = sum + payload * leb::pow128(index);
            if program[pos] < 128 {
                Ok((value as u64, pos + 1))
            } else {
                operand_groups(program, pos + 1, index + 1, value)
            }
        }
    }
}

/// Outcome of reading an operand at `pos`.
pub open spec fn operand_at(program: Seq<u8>, pos: int) -> Result<(u64, int), Error> {
    operand_groups(program, pos, 0, 0)
}

/// The position after `count` operands.
pub open spec fn operands_end(program: Seq<u8>, pos: int, count: nat) -> Result<int, Error>
    decreases count,
{
    if count == 0 {
        Ok(pos)
    } else {
        match operand_at(program, pos) {
            Err(error) => Err(error),
            Ok((_, next)) => operands_end(program, next, (count - 1) as nat),
        }
    }
}

/// The position `length` bytes on.
pub open spec fn bytes_end(program: Seq<u8>, pos: int, length: int) -> Result<int, Error> {
    if pos + length > usize::MAX {
        Err(Error::Overflow("DWARF line instruction length"))
    } else if pos + length > program.len() {
        Err(program_error("truncated instruction"))
    } else {
        Ok(pos + length)
    }
}

/// Whether an extended instruction whose length starts at `pos` ends a
/// sequence, and where the instruction ends.
pub open spec fn extended_at(program: Seq<u8>, pos: int) -> Result<(bool, int), Error> {
    match operand_at(program, pos) {
        Err(error) => Err(error),
        Ok((length, start)) => if length > usize::MAX {
            Err(Error::Overflow("extended DWARF line opcode length"))
        } else if length == 0 {
            Err(program_error("zero-length extended opcode"))
        } else if start >= program.len() {
            Err(program_error("truncated extended opcode"))
        } else {
            match bytes_end(program, start + 1, length - 1) {
                Err(error) => Err(error),
                Ok(end) => Ok((program[start] == DW_LNE_END_SEQUENCE, end)),
            }
        },
    }
}

/// Whether a standard opcode has no operand.
pub open spec fn stands_alone(opcode: u8) -> bool {
    opcode == DW_LNS_COPY || opcode == DW_LNS_NEGATE_STMT || opcode == DW_LNS_SET_BASIC_BLOCK
        || opcode == DW_LNS_CONST_ADD_PC || opcode == DW_LNS_SET_PROLOGUE_END || opcode
        == DW_LNS_SET_EPILOGUE_BEGIN
}

/// Where the operands of a standard opcode end.
pub open spec fn standard_end(
    program: Seq<u8>,
    lengths: Seq<u8>,
    opcode: u8,
    pos: int,
) -> Result<int, Error> {
    if opcode == DW_LNS_FIXED_ADVANCE_PC {
        bytes_end(program, pos, 2)
    } else if stands_alone(opcode) {
        Ok(pos)
    } else {
        operands_end(
            program,
            pos,
            if opcode - 1 < lengths.len() {
                lengths[opcode - 1] as nat
            } else {
                0
            },
        )
    }
}

/// Whether the instruction at `pos` ends a sequence, and where it ends.
pub open spec fn instruction_at(
    program: Seq<u8>,
    lengths: Seq<u8>,
    opcode_base: u8,
    pos: int,
) -> Result<(bool, int), Error> {
    let opcode = program[pos];
    if opcode == 0 {
        extended_at(program, pos + 1)
    } else if opcode < opcode_base {
        match standard_end(program, lengths, opcode, pos + 1) {
            Err(error) => Err(error),
            Ok(end) => Ok((false, end)),
        }
    } else {
        Ok((false, pos + 1))
    }
}

proof fn lemma_operand_advances(program: Seq<u8>, pos: int, index: nat, sum: nat)
    requires
        pos <= program.len(),
    ensures
        operand_groups(program, pos, index, sum) matches Ok((_, end)) ==> pos < end
            <= program.len(),
    decreases 10 - index,
{
    if index < 10 && pos < program.len() && program[pos] >= 128 {
        lemma_operand_advances(
            program,
            pos + 1,
            index + 1,
            sum + (program[pos] % 128) as nat * leb::pow128(index),
        );
    }
}

proof fn lemma_operands_advance(program: Seq<u8>, pos: int, count: nat)
    requires
        pos <= program.len(),
    ensures
        operands_end(program, pos, count) matches Ok(end) ==> pos <= end <= program.len(),
    decreases count,
{
    if count > 0 {
        lemma_operand_advances(program, pos, 0, 0);
        if let Ok((_, next)) = operand_at(program, pos) {
            lemma_operands_advance(program, next, (count - 1) as nat);
        }
    }
}

/// An instruction has at least one byte and lies in the program.
pub proof fn lemma_instruction_advances(
    program: Seq<u8>,
    lengths: Seq<u8>,
    opcode_base: u8,
    pos: int,
)
    requires
        0 <= pos < program.len(),
    ensures
        instruction_at(program, lengths, opcode_base, pos) matches Ok((_, end)) ==> pos < end
            <= program.len(),
{
    let opcode = program[pos];
    lemma_operand_advances(program, pos + 1, 0, 0);
    lemma_operands_advance(
        program,
        pos + 1,
        if opcode - 1 < lengths.len() {
            lengths[opcode - 1] as nat
        } else {
            0
        },
    );
}

/// Where the sequences from `pos` on begin, after those that were `found`,
/// when the sequence at `pos` begins at `start`.
pub open spec fn sequences_from(
    program: Seq<u8>,
    lengths: Seq<u8>,
    opcode_base: u8,
    program_offset: u64,
    pos: int,
    start: u64,
    found: Seq<u64>,
) -> Result<Seq<u64>, Error>
    decreases program.len() - pos,
{
    if pos < 0 || pos >= program.len() {
        Ok(found)
    } else {
        proof {
            lemma_instruction_advances(program, lengths, opcode_base, pos);
        }
        match instruction_at(program, lengths, opcode_base, pos) {
            Err(error) => Err(error),
            Ok((ends, next)) => if !ends {
                sequences_from(program, lengths, opcode_base, program_offset, next, start, found)
            } else if program_offset + next > u64::MAX {
                Err(Error::Overflow("DWARF line sequence offset"))
            } else {
                sequences_from(
                    program,
                    lengths,
                    opcode_base,
                    program_offset,
                    next,
                    (program_offset + next) as u64,
                    found.push(start),
                )
            },
        }
    }
}

/// The offsets at which the sequences of a line program begin.
pub open spec fn sequence_offsets(
    program: Seq<u8>,
    lengths: Seq<u8>,
    opcode_base: u8,
    program_offset: u64,
) -> Result<Seq<u64>, Error> {
    sequences_from(
        program,
        lengths,
        opcode_base,
        program_offset,
        0,
        program_offset,
        Seq::empty(),
    )
}

/// Reads one byte of a line program.
pub fn read_line_byte(program: &[u8], cursor: &mut usize) -> (result: Result<u8, Error>)
    requires
        *old(cursor) <= program@.len(),
    ensures
        match result {
            Ok(byte) => *old(cursor) < program@.len() && byte == program@[*old(cursor) as int]
                && *final(cursor) == *old(cursor) + 1,
            Err(error) => *old(cursor) == program@.len() && error == program_error(
                "truncated instruction",
            ) && *final(cursor) == *old(cursor),
        },
{
    let len: usize = program.len();
    if *cursor >= len {
        return Err(malformed("truncated instruction"));
    }
    let byte: u8 = program[*cursor];
    *cursor = *cursor + 1;
    Ok(byte)
}

/// Skips bytes of a line program.
pub fn take_line_bytes(program: &[u8], cursor: &mut usize, length: usize) -> (result: Result<
    (),
    Error,
>)
    requires
        *old(cursor) <= program@.len(),
    ensures
        match bytes_end(program@, *old(cursor) as int, length as int) {
            Ok(end) => result == Ok::<(), Error>(()) && *final(cursor) == end,
            Err(error) => result == Err::<(), Error>(error) && *final(cursor) == *old(cursor),
        },
{
    let len: usize = program.len();
    let end: usize = match (*cursor).checked_add(length) {
        Some(end) => end,
        None => return Err(Error::Overflow("DWARF line instruction length")),
    };
    if end > len {
        return Err(malformed("truncated instruction"));
    }
    *cursor = end;
    Ok(())
}

/// Reads an unsigned operand of a line program.
pub fn read_line_uleb(program: &[u8], cursor: &mut usize) -> (result: Result<u64, Error>)
    requires
        *old(cursor) <= program@.len(),
    ensures
        match operand_at(program@, *old(cursor) as int) {
            Ok((value, end)) => result == Ok::<u64, Error>(value) && *final(cursor) == end,
            Err(error) => result == Err::<u64, Error>(error),
        },
        *old(cursor) <= *final(cursor) <= program@.len(),
{
    let mut value: u64 = 0;
    let mut weight: u64 = 1;
    let mut index: usize = 0;
    let ghost start = *cursor;
    proof {
        leb::lemma_pow128_values();
    }
    while index < OPERAND_BYTES
        invariant
            index <= OPERAND_BYTES,
            start == *old(cursor),
            start <= *cursor <= program@.len(),
            index < 10 ==> weight == leb::pow128(index as nat),
            index < 10 ==> value < leb::pow128(index as nat),
            operand_at(program@, start as int) == operand_groups(
                program@,
                *cursor as int,
                index as nat,
                value as nat,
            ),
        decreases OPERAND_BYTES - index,
    {
        let byte: u8 = read_line_byte(program, cursor)?;
        let payload: u64 = (byte % 128) as u64;
        if index == 9 && payload > 1 {
            return Err(malformed("overflowing ULEB128 operand"));
        }
        proof {
            leb::lemma_pow128_values();
            leb::lemma_small_index(index as nat);
            let w = weight as int;
            assert(payload as int * w <= 127 * w) by (nonlinear_arith)
                requires
                    payload <= 127,
                    w > 0,
            ;
            assert(index == 9 ==> payload as int * w <= w) by (nonlinear_arith)
                requires
                    index == 9 ==> payload <= 1,
                    w > 0,
            ;
            assert(payload as int * w >= 0) by (nonlinear_arith)
                requires
                    w > 0,
            ;
        }
        value = value + payload * weight;
        if byte < 128 {
            return Ok(value);
        }
        if index < 8 {
            weight = weight * 128;
        } else {
            weight = 0x8000_0000_0000_0000;
        }
        index = index + 1;
    }
    Err(malformed("overlong ULEB128 operand"))
}

fn skip_operands(program: &[u8], cursor: &mut usize, count: u8) -> (result: Result<(), Error>)
    requires
        *old(cursor) <= program@.len(),
    ensures
        match operands_end(program@, *old(cursor) as int, count as nat) {
            Ok(end) => result == Ok::<(), Error>(()) && *final(cursor) == end,
            Err(error) => result == Err::<(), Error>(error),
        },
        *old(cursor) <= *final(cursor) <= program@.len(),
{
    let ghost start = *cursor;
    let mut left: u8 = count;
    while left > 0
        invariant
            start == *old(cursor),
            start <= *cursor <= program@.len(),
            operands_end(program@, start as int, count as nat) == operands_end(
                program@,
                *cursor as int,
                left as nat,
            ),
        decreases left,
    {
        read_line_uleb(program, cursor)?;
        left = left - 1;
    }
    Ok(())
}

fn read_extended(program: &[u8], cursor: &mut usize) -> (result: Result<bool, Error>)
    requires
        *old(cursor) <= program@.len(),
    ensures
        match extended_at(program@, *old(cursor) as int) {
            Ok((ends, end)) => result == Ok::<bool, Error>(ends) && *final(cursor) == end,
            Err(error) => result == Err::<bool, Error>(error),
        },
{
    let value: u64 = read_line_uleb(program, cursor)?;
    if value > usize::MAX as u64 {
        return Err(Error::Overflow("extended DWARF line opcode length"));
    }
    let length: usize = value as usize;
    if length == 0 {
        return Err(malformed("zero-length extended opcode"));
    }
    let opcode: u8 = match read_line_byte(program, cursor) {
        Ok(opcode) => opcode,
        Err(_) => return Err(malformed("truncated extended opcode")),
    };
    take_line_bytes(program, cursor, length - 1)?;
    Ok(opcode == DW_LNE_END_SEQUENCE)
}

fn skip_standard(
    program: &[u8],
    lengths: &[u8],
    opcode: u8,
    cursor: &mut usize,
) -> (result: Result<(), Error>)
    requires
        opcode > 0,
        *old(cursor) <= program@.len(),
    ensures
        match standard_end(program@, lengths@, opcode, *old(cursor) as int) {
            Ok(end) => result == Ok::<(), Error>(()) && *final(cursor) == end,
            Err(error) => result == Err::<(), Error>(error),
        },
{
    if opcode == DW_LNS_FIXED_ADVANCE_PC {
        take_line_bytes(program, cursor, 2)?;
        return Ok(());
    }
    if opcode == DW_LNS_COPY || opcode == DW_LNS_NEGATE_STMT || opcode == DW_LNS_SET_BASIC_BLOCK
        || opcode == DW_LNS_CONST_ADD_PC || opcode == DW_LNS_SET_PROLOGUE_END || opcode
        == DW_LNS_SET_EPILOGUE_BEGIN {
        return Ok(());
    }
    let known: usize = lengths.len();
    let index: usize = opcode as usize - 1;
    let count: u8 = if index < known {
        lengths[index]
    } else {
        0
    };
    skip_operands(program, cursor, count)?;
    Ok(())
}

/// Records the `.debug_line` offset at which each sequence's instructions begin.
///
/// `DW_AT_LLVM_stmt_sequence` points at one of these offsets, so a subprogram
/// can select the single line sequence that belongs to it. `gimli` runs the line
/// program but does not report where each sequence started, so this walks the
/// opcode stream with the same operand-length rules.
pub fn scan_line_sequence_offsets(
    program: &[u8],
    standard_opcode_lengths: &[u8],
    opcode_base: u8,
    program_offset: u64,
) -> (result: Result<Vec<u64>, Error>)
    ensures
        match sequence_offsets(program@, standard_opcode_lengths@, opcode_base, program_offset) {
            Ok(offsets) => result matches Ok(found) && found@ == offsets,
            Err(error) => result == Err::<Vec<u64>, Error>(error),
        },
{
    let len: usize = program.len();
    let mut cursor: usize = 0;
    let mut start: u64 = program_offset;
    let mut found: Vec<u64> = Vec::new();
    assert(found@ =~= Seq::<u64>::empty());
    while cursor < len
        invariant
            len == program@.len(),
            cursor <= len,
            sequence_offsets(program@, standard_opcode_lengths@, opcode_base, program_offset)
                == sequences_from(
                program@,
                standard_opcode_lengths@,
                opcode_base,
                program_offset,
                cursor as int,
                start,
                found@,
            ),
        decreases len - cursor,
    {
        proof {
            lemma_instruction_advances(
                program@,
                standard_opcode_lengths@,
                opcode_base,
                cursor as int,
            );
        }
        let opcode: u8 = read_line_byte(program, &mut cursor)?;
        let ends: bool = if opcode == 0 {
            read_extended(program, &mut cursor)?
        } else if opcode < opcode_base {
            skip_standard(program, standard_opcode_lengths, opcode, &mut cursor)?;
            false
        } else {
            false
        };
        if ends {
            found.push(start);
            start = match program_offset.checked_add(cursor as u64) {
                Some(offset) => offset,
                None => return Err(Error::Overflow("DWARF line sequence offset")),
            };
        }
    }
    Ok(found)
}

/// Standard opcode that advances the address.
pub const DW_LNS_ADVANCE_PC: u8 = 2;

/// Standard opcode that advances the line.
pub const DW_LNS_ADVANCE_LINE: u8 = 3;

/// Standard opcode that sets the file.
pub const DW_LNS_SET_FILE: u8 = 4;

/// Standard opcode that sets the column.
pub const DW_LNS_SET_COLUMN: u8 = 5;

/// Standard opcode that sets the instruction set.
pub const DW_LNS_SET_ISA: u8 = 12;

/// Where the signed operand at `pos` ends, from the byte with index `index` on.
pub open spec fn signed_end(program: Seq<u8>, pos: int, index: nat) -> Option<int>
    decreases 10 - index,
{
    if index >= 10 || pos >= program.len() {
        None
    } else if index == 9 {
        if program[pos] == 0 || program[pos] == 0x7f {
            Some(pos + 1)
        } else {
            None
        }
    } else if program[pos] < 128 {
        Some(pos + 1)
    } else {
        signed_end(program, pos + 1, index + 1)
    }
}

/// Number of unsigned operands of a standard opcode as the parser reads them: an
/// opcode that it knows has those of the format, and another as many as the
/// header says.
pub open spec fn parsed_operands(lengths: Seq<u8>, opcode: u8) -> nat {
    if opcode == DW_LNS_ADVANCE_PC || opcode == DW_LNS_SET_FILE || opcode == DW_LNS_SET_COLUMN
        || opcode == DW_LNS_SET_ISA {
        1
    } else if stands_alone(opcode) || opcode - 1 >= lengths.len() {
        0
    } else {
        lengths[opcode - 1] as nat
    }
}

/// Where the instruction at `pos` ends as the parser reads it.
pub open spec fn parsed_end(program: Seq<u8>, lengths: Seq<u8>, opcode_base: u8, pos: int) -> Option<
    int,
> {
    let opcode = program[pos];
    if opcode == 0 {
        match extended_at(program, pos + 1) {
            Ok((_, end)) => Some(end),
            Err(_) => None,
        }
    } else if opcode >= opcode_base {
        Some(pos + 1)
    } else if opcode == DW_LNS_ADVANCE_LINE {
        signed_end(program, pos + 1, 0)
    } else if opcode == DW_LNS_FIXED_ADVANCE_PC {
        if pos + 3 <= program.len() {
            Some(pos + 3)
        } else {
            None
        }
    } else {
        match operands_end(program, pos + 1, parsed_operands(lengths, opcode)) {
            Ok(end) => Some(end),
            Err(_) => None,
        }
    }
}

/// Whether the instruction at `pos` takes the line back by as much as a signed
/// operand can say, which has no positive counterpart.
pub open spec fn takes_back_most(program: Seq<u8>, opcode_base: u8, pos: int) -> bool {
    &&& program[pos] == DW_LNS_ADVANCE_LINE
    &&& program[pos] < opcode_base
    &&& pos + 11 <= program.len()
    &&& forall|i: int| pos < i < pos + 10 ==> #[trigger] program[i] == 0x80
    &&& program[pos + 10] == 0x7f
}

proof fn lemma_signed_advances(program: Seq<u8>, pos: int, index: nat)
    ensures
        signed_end(program, pos, index) matches Some(end) ==> pos < end <= program.len(),
    decreases 10 - index,
{
    if index < 9 && pos < program.len() && program[pos] >= 128 {
        lemma_signed_advances(program, pos + 1, index + 1);
    }
}

/// An instruction has at least one byte and lies in the program.
pub proof fn lemma_parsed_advances(
    program: Seq<u8>,
    lengths: Seq<u8>,
    opcode_base: u8,
    pos: int,
)
    requires
        0 <= pos < program.len(),
    ensures
        parsed_end(program, lengths, opcode_base, pos) matches Some(end) ==> pos < end
            <= program.len(),
{
    lemma_operand_advances(program, pos + 1, 0, 0);
    lemma_signed_advances(program, pos + 1, 0);
    lemma_operands_advance(program, pos + 1, parsed_operands(lengths, program[pos]));
}

/// Whether no instruction from `pos` on takes the line back by as much as a
/// signed operand can say. The parser stops at one that it cannot read.
pub open spec fn runs_safely(
    program: Seq<u8>,
    lengths: Seq<u8>,
    opcode_base: u8,
    pos: int,
) -> bool
    decreases program.len() - pos,
{
    if pos < 0 || pos >= program.len() {
        true
    } else {
        proof {
            lemma_parsed_advances(program, lengths, opcode_base, pos);
        }
        &&& !takes_back_most(program, opcode_base, pos)
        &&& match parsed_end(program, lengths, opcode_base, pos) {
            Some(next) => runs_safely(program, lengths, opcode_base, next),
            None => true,
        }
    }
}

fn skip_signed(program: &[u8], pos: usize) -> (end: Option<usize>)
    requires
        pos <= program@.len(),
    ensures
        match signed_end(program@, pos as int, 0) {
            Some(found) => end matches Some(end) && end == found,
            None => end is None,
        },
{
    let len: usize = program.len();
    let mut at: usize = pos;
    let mut index: usize = 0;
    while index < 9 && at < len
        invariant
            len == program@.len(),
            at <= len,
            index <= 9,
            signed_end(program@, pos as int, 0) == signed_end(program@, at as int, index as nat),
        decreases 9 - index,
    {
        if program[at] < 128 {
            return Some(at + 1);
        }
        at = at + 1;
        index = index + 1;
    }
    if at < len && (program[at] == 0 || program[at] == 0x7f) {
        Some(at + 1)
    } else {
        None
    }
}

fn skip_parsed(program: &[u8], lengths: &[u8], opcode_base: u8, pos: usize) -> (end: Option<usize>)
    requires
        pos < program@.len(),
    ensures
        match parsed_end(program@, lengths@, opcode_base, pos as int) {
            Some(found) => end matches Some(end) && end == found,
            None => end is None,
        },
{
    let len: usize = program.len();
    let opcode: u8 = program[pos];
    let mut cursor: usize = pos + 1;
    if opcode == 0 {
        return match read_extended(program, &mut cursor) {
            Ok(_) => Some(cursor),
            Err(_) => None,
        };
    }
    if opcode >= opcode_base {
        return Some(cursor);
    }
    if opcode == DW_LNS_ADVANCE_LINE {
        return skip_signed(program, cursor);
    }
    if opcode == DW_LNS_FIXED_ADVANCE_PC {
        return if len - cursor >= 2 {
            Some(cursor + 2)
        } else {
            None
        };
    }
    let known: usize = lengths.len();
    let index: usize = opcode as usize - 1;
    let count: u8 = if opcode == DW_LNS_ADVANCE_PC || opcode == DW_LNS_SET_FILE || opcode
        == DW_LNS_SET_COLUMN || opcode == DW_LNS_SET_ISA {
        1
    } else if opcode == DW_LNS_COPY || opcode == DW_LNS_NEGATE_STMT || opcode
        == DW_LNS_SET_BASIC_BLOCK || opcode == DW_LNS_CONST_ADD_PC || opcode
        == DW_LNS_SET_PROLOGUE_END || opcode == DW_LNS_SET_EPILOGUE_BEGIN || index >= known {
        0
    } else {
        lengths[index]
    };
    match skip_operands(program, &mut cursor, count) {
        Ok(()) => Some(cursor),
        Err(_) => None,
    }
}

fn is_taking_back_most(program: &[u8], opcode_base: u8, pos: usize) -> (most: bool)
    requires
        pos < program@.len(),
    ensures
        most == takes_back_most(program@, opcode_base, pos as int),
{
    let len: usize = program.len();
    if program[pos] != DW_LNS_ADVANCE_LINE || program[pos] >= opcode_base || len - pos < 11 {
        return false;
    }
    let mut at: usize = pos + 1;
    while at < pos + 10
        invariant
            len == program@.len(),
            pos + 11 <= len,
            pos < at <= pos + 10,
            forall|i: int| pos < i < at ==> #[trigger] program@[i] == 0x80,
        decreases pos + 10 - at,
    {
        if program[at] != 0x80 {
            return false;
        }
        at = at + 1;
    }
    program[at] == 0x7f
}

/// Returns whether no instruction of a line program takes the line back by as
/// much as a signed operand can say.
pub fn is_safely_run(program: &[u8], lengths: &[u8], opcode_base: u8) -> (safe: bool)
    ensures
        safe == runs_safely(program@, lengths@, opcode_base, 0),
{
    let len: usize = program.len();
    let mut pos: usize = 0;
    while pos < len
        invariant
            len == program@.len(),
            pos <= len,
            runs_safely(program@, lengths@, opcode_base, 0) == runs_safely(
                program@,
                lengths@,
                opcode_base,
                pos as int,
            ),
        decreases len - pos,
    {
        proof {
            lemma_parsed_advances(program@, lengths@, opcode_base, pos as int);
        }
        if is_taking_back_most(program, opcode_base, pos) {
            return false;
        }
        match skip_parsed(program, lengths, opcode_base, pos) {
            Some(next) => {
                pos = next;
            },
            None => return true,
        }
    }
    true
}

} // verus!
