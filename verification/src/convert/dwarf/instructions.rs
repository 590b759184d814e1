//! Laws on where the sequences of a line program begin.
use vstd::prelude::*;

use crate::bytes;
use crate::convert::dwarf::program;
use crate::error::Error;
use crate::format::leb;

verus! {

/// An instruction of a line program.
pub enum Instruction {
    /// A special opcode.
    Special(u8),
    /// A standard opcode with operands.
    Standard {
        /// The opcode.
        opcode: u8,
        /// The operands.
        operands: Seq<u64>,
    },
    /// The standard opcode whose operand is two bytes.
    FixedAdvance(u8, u8),
    /// An extended opcode.
    Extended {
        /// The opcode.
        opcode: u8,
        /// What follows the opcode.
        payload: Seq<u8>,
    },
}

/// Number of operands of a standard opcode: what the header lists, but for the opcodes
/// that are known to have none.
pub open spec fn operand_count(lengths: Seq<u8>, opcode: u8) -> nat {
    if opcode == 1 || 6 <= opcode <= 8 || opcode == 10 || opcode == 11 {
        0
    } else if 1 <= opcode <= lengths.len() {
        lengths[opcode - 1] as nat
    } else {
        0
    }
}

/// Whether an instruction can stand in a program with the given header.
pub open spec fn can_stand(instruction: Instruction, lengths: Seq<u8>, opcode_base: u8) -> bool {
    match instruction {
        Instruction::Special(opcode) => opcode >= opcode_base && opcode > 0,
        Instruction::Standard { opcode, operands } => 0 < opcode < opcode_base && opcode != 9
            && operands.len() == operand_count(lengths, opcode),
        Instruction::FixedAdvance(_, _) => 9 < opcode_base,
        Instruction::Extended { payload, .. } => payload.len() < u64::MAX,
    }
}

/// Whether an instruction ends a sequence.
pub open spec fn ends_sequence(instruction: Instruction) -> bool {
    instruction matches Instruction::Extended { opcode, .. } && opcode == 1
}

/// Operands one behind the other.
pub open spec fn operands_bytes(operands: Seq<u64>) -> Seq<u8>
    decreases operands.len(),
{
    if operands.len() == 0 {
        Seq::empty()
    } else {
        leb::uleb_bytes(operands[0] as nat) + operands_bytes(operands.drop_first())
    }
}

/// The bytes of an instruction.
pub open spec fn instruction_bytes(instruction: Instruction) -> Seq<u8> {
    match instruction {
        Instruction::Special(opcode) => seq![opcode],
        Instruction::Standard { opcode, operands } => seq![opcode] + operands_bytes(operands),
        Instruction::FixedAdvance(low, high) => seq![9u8] + seq![low, high],
        Instruction::Extended { opcode, payload } => seq![0u8] + (leb::uleb_bytes(
            payload.len() + 1,
        ) + (seq![opcode] + payload)),
    }
}

/// Instructions one behind the other.
pub open spec fn instructions_bytes(instructions: Seq<Instruction>) -> Seq<u8>
    decreases instructions.len(),
{
    if instructions.len() == 0 {
        Seq::empty()
    } else {
        instruction_bytes(instructions[0]) + instructions_bytes(instructions.drop_first())
    }
}

/// The instruction that ends a sequence.
pub open spec fn end_of_sequence() -> Instruction {
    Instruction::Extended { opcode: 1, payload: Seq::empty() }
}

/// The first `count` of some sequences one behind the other, each with its end.
pub open spec fn sequences_bytes(sequences: Seq<Seq<Instruction>>, count: nat) -> Seq<u8>
    decreases count,
{
    if count == 0 {
        Seq::empty()
    } else {
        sequences_bytes(sequences, (count - 1) as nat) + (instructions_bytes(sequences[count - 1])
            + instruction_bytes(end_of_sequence()))
    }
}

/// Whether instructions can stand in a sequence before its end.
pub open spec fn is_body(
    instructions: Seq<Instruction>,
    lengths: Seq<u8>,
    opcode_base: u8,
) -> bool {
    forall|i: int|
        0 <= i < instructions.len() ==> can_stand(#[trigger] instructions[i], lengths, opcode_base)
            && !ends_sequence(instructions[i])
}

proof fn lemma_groups_agree(s: Seq<u8>, start: int, pos: int, index: nat, sum: nat)
    ensures
        leb::uleb_groups(s, start, pos, index, sum, 64) is Ok ==> program::operand_groups(
            s,
            pos,
            index,
            sum,
        ) == leb::uleb_groups(s, start, pos, index, sum, 64),
    decreases 10 - index,
{
    if index < 10 && pos < s.len() {
        leb::lemma_pow128_values();
        let payload = (s[pos] % 128) as nat;
        if index == 9 && payload > 1 {
            assert(payload * leb::pow128(9) >= 2 * leb::pow128(9)) by (nonlinear_arith)
                requires
                    payload > 1,
            ;
        } else if s[pos] >= 128 {
            lemma_groups_agree(s, start, pos + 1, index + 1, sum + payload * leb::pow128(index));
        }
    }
}

proof fn lemma_operand_read(s: Seq<u8>, pos: int, value: u64)
    requires
        bytes::holds_at(s, pos, leb::uleb_bytes(value as nat)),
    ensures
        program::operand_at(s, pos) == Ok::<(u64, int), Error>(
            (value, pos + leb::uleb_bytes(value as nat).len()),
        ),
{
    leb::law_uleb_round_trip(s, pos, value);
    lemma_groups_agree(s, pos, pos, 0, 0);
}

proof fn lemma_operands_read(s: Seq<u8>, pos: int, operands: Seq<u64>)
    requires
        bytes::holds_at(s, pos, operands_bytes(operands)),
    ensures
        program::operands_end(s, pos, operands.len()) == Ok::<int, Error>(
            pos + operands_bytes(operands).len(),
        ),
    decreases operands.len(),
{
    if operands.len() > 0 {
        let first = leb::uleb_bytes(operands[0] as nat);
        let rest = operands.drop_first();
        bytes::lemma_holds_at_split(s, pos, first, operands_bytes(rest));
        lemma_operand_read(s, pos, operands[0]);
        lemma_operands_read(s, pos + first.len(), rest);
    }
}

proof fn lemma_instruction_read(
    s: Seq<u8>,
    lengths: Seq<u8>,
    opcode_base: u8,
    pos: int,
    instruction: Instruction,
)
    requires
        s.len() <= usize::MAX,
        can_stand(instruction, lengths, opcode_base),
        bytes::holds_at(s, pos, instruction_bytes(instruction)),
    ensures
        program::instruction_at(s, lengths, opcode_base, pos) == Ok::<(bool, int), Error>(
            (ends_sequence(instruction), pos + instruction_bytes(instruction).len()),
        ),
        instruction_bytes(instruction).len() > 0,
{
    bytes::lemma_holds_at_index(s, pos, instruction_bytes(instruction), 0);
    match instruction {
        Instruction::Special(_) => {},
        Instruction::Standard { opcode, operands } => {
            bytes::lemma_holds_at_split(s, pos, seq![opcode], operands_bytes(operands));
            lemma_operands_read(s, pos + 1, operands);
            if operands.len() == 0 {
                assert(operands_bytes(operands) =~= Seq::empty());
            }
        },
        Instruction::FixedAdvance(_, _) => {},
        Instruction::Extended { opcode, payload } => {
            let length = (payload.len() + 1) as u64;
            let size = leb::uleb_bytes(length as nat);
            let rest = seq![opcode] + payload;
            bytes::lemma_holds_at_split(s, pos, seq![0u8], size + rest);
            bytes::lemma_holds_at_split(s, pos + 1, size, rest);
            lemma_operand_read(s, pos + 1, length);
            bytes::lemma_holds_at_index(s, pos + 1 + size.len(), rest, 0);
        },
    }
}

proof fn lemma_body_passed(
    s: Seq<u8>,
    lengths: Seq<u8>,
    opcode_base: u8,
    program_offset: u64,
    pos: int,
    start: u64,
    found: Seq<u64>,
    instructions: Seq<Instruction>,
)
    requires
        s.len() <= usize::MAX,
        is_body(instructions, lengths, opcode_base),
        bytes::holds_at(s, pos, instructions_bytes(instructions)),
    ensures
        program::sequences_from(s, lengths, opcode_base, program_offset, pos, start, found)
            == program::sequences_from(
            s,
            lengths,
            opcode_base,
            program_offset,
            pos + instructions_bytes(instructions).len(),
            start,
            found,
        ),
    decreases instructions.len(),
{
    if instructions.len() > 0 {
        let first = instruction_bytes(instructions[0]);
        let rest = instructions.drop_first();
        bytes::lemma_holds_at_split(s, pos, first, instructions_bytes(rest));
        lemma_instruction_read(s, lengths, opcode_base, pos, instructions[0]);
        assert forall|i: int| 0 <= i < rest.len() implies can_stand(
            #[trigger] rest[i],
            lengths,
            opcode_base,
        ) && !ends_sequence(rest[i]) by {
            assert(rest[i] == instructions[i + 1]);
        }
        lemma_body_passed(
            s,
            lengths,
            opcode_base,
            program_offset,
            pos + first.len(),
            start,
            found,
            rest,
        );
    }
}

proof fn lemma_sequences_stand(
    sequences: Seq<Seq<Instruction>>,
    tail: Seq<u8>,
    count: nat,
    whole: nat,
)
    requires
        count <= whole,
    ensures
        sequences_bytes(sequences, count).len() <= sequences_bytes(sequences, whole).len(),
        count < whole ==> bytes::holds_at(
            sequences_bytes(sequences, whole) + tail,
            sequences_bytes(sequences, count).len() as int,
            instructions_bytes(sequences[count as int]) + instruction_bytes(end_of_sequence()),
        ),
    decreases whole,
{
    if count < whole {
        let m = (whole - 1) as nat;
        let last = instructions_bytes(sequences[m as int]) + instruction_bytes(end_of_sequence());
        let before = sequences_bytes(sequences, m);
        lemma_sequences_stand(sequences, last + tail, count, m);
        assert(sequences_bytes(sequences, whole) + tail =~= before + (last + tail));
        if count == m {
            let all = before + (last + tail);
            assert(all.subrange(before.len() as int, (before.len() + last.len()) as int) =~= last);
        }
    }
}

/// The offsets of the first `count` sequences.
pub open spec fn starts_of(
    sequences: Seq<Seq<Instruction>>,
    program_offset: u64,
    count: nat,
) -> Seq<u64> {
    Seq::new(
        count,
        |k: int| (program_offset + sequences_bytes(sequences, k as nat).len()) as u64,
    )
}

proof fn lemma_sequences_found(
    sequences: Seq<Seq<Instruction>>,
    tail: Seq<Instruction>,
    lengths: Seq<u8>,
    opcode_base: u8,
    program_offset: u64,
    k: nat,
)
    requires
        k <= sequences.len(),
        forall|i: int|
            0 <= i < sequences.len() ==> is_body(#[trigger] sequences[i], lengths, opcode_base),
        is_body(tail, lengths, opcode_base),
        ({
            let whole = sequences_bytes(sequences, sequences.len()) + instructions_bytes(tail);
            whole.len() <= usize::MAX && program_offset + whole.len() <= u64::MAX
        }),
    ensures
        ({
            let whole = sequences_bytes(sequences, sequences.len()) + instructions_bytes(tail);
            let pos = sequences_bytes(sequences, k).len();
            program::sequences_from(
                whole,
                lengths,
                opcode_base,
                program_offset,
                pos as int,
                (program_offset + pos) as u64,
                starts_of(sequences, program_offset, k),
            ) == Ok::<Seq<u64>, Error>(
                starts_of(sequences, program_offset, sequences.len()),
            )
        }),
    decreases sequences.len() - k,
{
    let n = sequences.len();
    let rest = instructions_bytes(tail);
    let whole = sequences_bytes(sequences, n) + rest;
    let pos = sequences_bytes(sequences, k).len() as int;
    let start = (program_offset + pos) as u64;
    let found = starts_of(sequences, program_offset, k);
    if k == n {
        assert(whole.subrange(pos, pos + rest.len()) =~= rest);
        lemma_body_passed(
            whole,
            lengths,
            opcode_base,
            program_offset,
            pos,
            start,
            found,
            tail,
        );
    } else {
        let body = instructions_bytes(sequences[k as int]);
        let end = instruction_bytes(end_of_sequence());
        lemma_sequences_stand(sequences, rest, k, n);
        bytes::lemma_holds_at_split(whole, pos, body, end);
        lemma_body_passed(
            whole,
            lengths,
            opcode_base,
            program_offset,
            pos,
            start,
            found,
            sequences[k as int],
        );
        lemma_instruction_read(
            whole,
            lengths,
            opcode_base,
            pos + body.len(),
            end_of_sequence(),
        );
        let next = sequences_bytes(sequences, k + 1).len();
        assert(next == pos + body.len() + end.len());
        assert(starts_of(sequences, program_offset, k + 1) =~= found.push(start));
        lemma_sequences_found(
            sequences,
            tail,
            lengths,
            opcode_base,
            program_offset,
            k + 1,
        );
    }
}

/// The sequences of a line program begin where the bytes of those before them end.
/// The last instructions belong to no sequence where no end follows them.
pub proof fn law_sequences_begin_behind_one_another(
    sequences: Seq<Seq<Instruction>>,
    tail: Seq<Instruction>,
    lengths: Seq<u8>,
    opcode_base: u8,
    program_offset: u64,
)
    requires
        forall|i: int|
            0 <= i < sequences.len() ==> is_body(#[trigger] sequences[i], lengths, opcode_base),
        is_body(tail, lengths, opcode_base),
        ({
            let whole = sequences_bytes(sequences, sequences.len()) + instructions_bytes(tail);
            whole.len() <= usize::MAX && program_offset + whole.len() <= u64::MAX
        }),
    ensures
        program::sequence_offsets(
            sequences_bytes(sequences, sequences.len()) + instructions_bytes(tail),
            lengths,
            opcode_base,
            program_offset,
        ) == Ok::<Seq<u64>, Error>(starts_of(sequences, program_offset, sequences.len())),
{
    assert(starts_of(sequences, program_offset, 0) =~= Seq::empty());
    lemma_sequences_found(sequences, tail, lengths, opcode_base, program_offset, 0);
}

} // verus!
