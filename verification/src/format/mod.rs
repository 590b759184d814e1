//! The GSYM wire format.
use vstd::prelude::*;
use crate::bytes;
use crate::error::Error;

pub mod callsite;
pub mod function;
pub mod inline_tree;
pub mod leb;
pub mod line;
pub mod v1;
pub mod v2;

verus! {

/// Magic number at the start of a GSYM file, in the byte order of the file.
pub const GSYM_MAGIC: u32 = 0x4753_594d;

/// The magic number as it reads in the other byte order.
pub const GSYM_CIGAM: u32 = 0x4d59_5347;

/// Record type that ends a function's records.
pub const INFO_END: u32 = 0;

/// Record type of a line table.
pub const INFO_LINE_TABLE: u32 = 1;

/// Record type of an inline tree.
pub const INFO_INLINE: u32 = 2;

/// Record type of merged functions.
pub const INFO_MERGED: u32 = 3;

/// Record type of call sites.
pub const INFO_CALL_SITE: u32 = 4;

/// `value` rounded up to a multiple of `alignment`.
pub open spec fn aligned(value: nat, alignment: nat) -> nat {
    value + bytes::padding(value, alignment)
}

/// Rounding up gives a multiple, and no smaller multiple is as large.
pub proof fn lemma_aligned(value: nat, alignment: nat)
    requires
        alignment > 0,
    ensures
        aligned(value, alignment) % alignment == 0,
        value <= aligned(value, alignment) < value + alignment,
{
    let r = value % alignment;
    if r != 0 {
        assert(aligned(value, alignment) == value - r + alignment);
        let q = value / alignment;
        assert(value == alignment * q + r) by (nonlinear_arith)
            requires
                q == value / alignment,
                r == value % alignment,
                alignment > 0,
        ;
        assert((alignment * q + alignment) % alignment == 0) by (nonlinear_arith)
            requires
                alignment > 0,
        ;
    }
    assert(0 <= r < alignment) by (nonlinear_arith)
        requires
            r == value % alignment,
            alignment > 0,
    ;
}

/// Rounds `value` up to a multiple of `alignment`, if there is one that can be
/// held.
pub fn align_up(value: usize, alignment: usize) -> (result: Option<usize>)
    ensures
        match result {
            Some(rounded) => alignment != 0 && rounded == aligned(value as nat, alignment as nat),
            None => alignment == 0 || aligned(value as nat, alignment as nat) > usize::MAX,
        },
{
    if alignment == 0 {
        return None;
    }
    let remainder: usize = value % alignment;
    if remainder == 0 {
        Some(value)
    } else {
        value.checked_add(alignment - remainder)
    }
}

/// Size of a file table of `file_count` entries behind its four-byte count.
pub open spec fn spec_file_table_size(file_count: u32, entry_size: usize) -> int {
    file_count * entry_size + 4
}

/// Computes the size of a file table, or reports that it cannot be held.
pub fn file_table_size(file_count: u32, entry_size: usize, context: &'static str) -> (result:
    Result<usize, Error>)
    ensures
        result == (if spec_file_table_size(file_count, entry_size) <= usize::MAX {
            Ok::<usize, Error>(spec_file_table_size(file_count, entry_size) as usize)
        } else {
            Err::<usize, Error>(Error::Overflow(context))
        }),
{
    let size: usize = match (file_count as usize).checked_mul(entry_size) {
        Some(size) => size,
        None => return Err(Error::Overflow(context)),
    };
    match size.checked_add(4) {
        Some(size) => Ok(size),
        None => Err(Error::Overflow(context)),
    }
}

} // verus!
