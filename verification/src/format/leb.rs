//! LEB128 integers.
use vstd::prelude::*;
use crate::bytes;
use vstd::arithmetic::power2::{lemma2_to64, lemma_pow2_strictly_increases, lemma_pow2_unfold, pow2};
use crate::endian::{Cursor, Encoder};
use crate::error::Error;

verus! {

/// Widest value either LEB128 reader can produce.
pub const MAXIMUM_BITS: u8 = 64;

/// `128` to the power `n`: the weight of the group with index `n`.
pub open spec fn pow128(n: nat) -> nat
    decreases n,
{
    if n == 0 {
        1
    } else {
        128 * pow128((n - 1) as nat)
    }
}

/// The shortest unsigned LEB128 encoding of `v`: groups of seven bits, the
/// lowest first, each but the last with its top bit set.
pub open spec fn uleb_bytes(v: nat) -> Seq<u8>
    decreases v,
{
    if v < 128 {
        seq![v as u8]
    } else {
        seq![(128 + v % 128) as u8] + uleb_bytes(v / 128)
    }
}

/// Whether the group `low` ends the signed encoding of a value whose higher
/// groups are `rest`: the rest is the sign extension of the group.
pub open spec fn sleb_ends(low: int, rest: int) -> bool {
    (rest == 0 && low < 64) || (rest == -1 && low >= 64)
}

/// The shortest signed LEB128 encoding of `v`.
pub open spec fn sleb_bytes(v: int) -> Seq<u8>
    decreases
            (if v < 0 {
                -v
            } else {
                v
            }),
{
    if sleb_ends(v % 128, v / 128) {
        seq![(v % 128) as u8]
    } else {
        seq![(128 + v % 128) as u8] + sleb_bytes(v / 128)
    }
}

/// The error of an unsigned value that starts at `start`.
pub open spec fn uleb_error(start: int, reason: &'static str) -> Error {
    Error::MalformedUleb { offset: start as usize, reason }
}

/// The error of a signed value that starts at `start`.
pub open spec fn sleb_error(start: int, reason: &'static str) -> Error {
    Error::MalformedSleb { offset: start as usize, reason }
}

/// Largest number of groups that a value of `bits` bits may take.
pub open spec fn group_limit(bits: u8) -> nat {
    ((bits + 6) / 7) as nat
}

/// Outcome of reading the groups from index `index` on of an unsigned value
/// that starts at `start`, where `acc` is the value of the groups before.
pub open spec fn uleb_groups(
    s: Seq<u8>,
    start: int,
    pos: int,
    index: nat,
    acc: nat,
    bits: u8,
) -> Result<(u64, int), Error>
    decreases group_limit(bits) - index,
{
    if index >= group_limit(bits) {
        Err(uleb_error(start, "sequence is too long"))
    } else if pos >= s.len() {
        Err(uleb_error(start, "unterminated sequence"))
    } else {
        let group = (s[pos] % 128) as nat * pow128(index);
        if group > u64::MAX {
            Err(uleb_error(start, "value exceeds u64"))
        } else if s[pos] >= 128 {
            uleb_groups(s, start, pos + 1, index + 1, acc + group, bits)
        } else if acc + group >= pow2(bits as nat) {
            Err(uleb_error(start, "value exceeds requested bit width"))
        } else {
            Ok(((acc + group) as u64, pos + 1))
        }
    }
}

/// Outcome of reading an unsigned value of at most `bits` bits at `pos`.
pub open spec fn uleb_bounded_at(s: Seq<u8>, pos: int, bits: u8) -> Result<(u64, int), Error> {
    if bits == 0 || bits > 64 {
        Err(Error::OutOfRange { field: "ULEB128 bit width", value: bits as u64, max: 64 })
    } else {
        uleb_groups(s, pos, pos, 0, 0, bits)
    }
}

/// Outcome of reading an unsigned value at `pos`.
pub open spec fn uleb_at(s: Seq<u8>, pos: int) -> Result<(u64, int), Error> {
    uleb_bounded_at(s, pos, 64)
}

/// Outcome of reading the groups from index `index` on of a signed value that
/// starts at `start`, where `acc` is the value of the groups before.
pub open spec fn sleb_groups(
    s: Seq<u8>,
    start: int,
    pos: int,
    index: nat,
    acc: nat,
    bits: u8,
) -> Result<(i64, int), Error>
    decreases group_limit(bits) - index,
{
    if index >= group_limit(bits) {
        Err(sleb_error(start, "sequence is too long"))
    } else if pos >= s.len() {
        Err(sleb_error(start, "unterminated sequence"))
    } else {
        let group = (s[pos] % 128) as nat * pow128(index);
        if s[pos] >= 128 {
            sleb_groups(s, start, pos + 1, index + 1, acc + group, bits)
        } else {
            let value = if s[pos] >= 64 {
                acc + group - pow128(index + 1)
            } else {
                (acc + group) as int
            };
            if -pow2((bits - 1) as nat) <= value < pow2((bits - 1) as nat) {
                Ok((value as i64, pos + 1))
            } else if bits < 64 {
                Err(sleb_error(start, "value exceeds requested bit width"))
            } else {
                Err(sleb_error(start, "value exceeds i64"))
            }
        }
    }
}

/// Outcome of reading a signed value of at most `bits` bits at `pos`.
pub open spec fn sleb_bounded_at(s: Seq<u8>, pos: int, bits: u8) -> Result<(i64, int), Error> {
    if bits == 0 || bits > 64 {
        Err(Error::OutOfRange { field: "SLEB128 bit width", value: bits as u64, max: 64 })
    } else {
        sleb_groups(s, pos, pos, 0, 0, bits)
    }
}

/// Outcome of reading a signed value at `pos`.
pub open spec fn sleb_at(s: Seq<u8>, pos: int) -> Result<(i64, int), Error> {
    sleb_bounded_at(s, pos, 64)
}

/// The weights of the groups of a 64-bit value.
pub proof fn lemma_pow128_values()
    ensures
        pow128(0) == 1,
        pow128(1) == 0x80,
        pow128(2) == 0x4000,
        pow128(3) == 0x20_0000,
        pow128(4) == 0x1000_0000,
        pow128(5) == 0x8_0000_0000,
        pow128(6) == 0x400_0000_0000,
        pow128(7) == 0x2_0000_0000_0000,
        pow128(8) == 0x100_0000_0000_0000,
        pow128(9) == 0x8000_0000_0000_0000,
        pow128(10) == 0x40_0000_0000_0000_0000,
{
    reveal_with_fuel(pow128, 11);
}

proof fn lemma_pow128_pos(n: nat)
    ensures
        pow128(n) > 0,
    decreases n,
{
    if n > 0 {
        lemma_pow128_pos((n - 1) as nat);
    }
}

/// The weight of a group of a 64-bit value and of the group after it.
pub proof fn lemma_small_index(index: nat)
    requires
        index < 10,
    ensures
        pow128(index) <= pow128(9),
        pow128(index + 1) == 128 * pow128(index),
{
    lemma_pow128_values();
    assert(index == 0 || index == 1 || index == 2 || index == 3 || index == 4 || index == 5 || index
        == 6 || index == 7 || index == 8 || index == 9);
}

/// Splitting a value into its low group and the rest loses nothing.
proof fn lemma_split(v: int, p: int)
    ensures
        (v % 128) * p + (v / 128) * (128 * p) == v * p,
{
    assert(v == 128 * (v / 128) + v % 128);
    assert((v % 128) * p + (v / 128) * (128 * p) == (128 * (v / 128) + v % 128) * p)
        by (nonlinear_arith);
}

proof fn lemma_uleb_groups_round_trip(s: Seq<u8>, start: int, pos: int, index: nat, acc: nat, v: nat)
    requires
        bytes::holds_at(s, pos, uleb_bytes(v)),
        index < 10,
        acc + v * pow128(index) <= u64::MAX,
    ensures
        uleb_groups(s, start, pos, index, acc, 64) == Ok::<(u64, int), Error>(
            ((acc + v * pow128(index)) as u64, pos + uleb_bytes(v).len()),
        ),
    decreases v,
{
    let p = pow128(index);
    lemma_pow128_pos(index);
    lemma_small_index(index);
    lemma_pow128_values();
    lemma2_to64();
    bytes::lemma_holds_at_index(s, pos, uleb_bytes(v), 0);
    lemma_split(v as int, p as int);
    assert((v / 128) * (128 * p) >= 0) by (nonlinear_arith);
    if v < 128 {
        assert(s[pos] % 128 == v);
    } else {
        let first = seq![(128 + v % 128) as u8];
        let rest = uleb_bytes(v / 128);
        bytes::lemma_holds_at_split(s, pos, first, rest);
        assert(index != 9) by {
            if index == 9 {
                assert(v * p >= 128 * p) by (nonlinear_arith)
                    requires
                        v >= 128,
                        p >= 0,
                ;
            }
        }
        assert(s[pos] % 128 == v % 128);
        lemma_uleb_groups_round_trip(
            s,
            start,
            pos + 1,
            index + 1,
            acc + (v % 128) * p,
            v / 128,
        );
    }
}

/// Reading gives back what was written as an unsigned LEB128 value.
pub proof fn law_uleb_round_trip(s: Seq<u8>, pos: int, value: u64)
    requires
        bytes::holds_at(s, pos, uleb_bytes(value as nat)),
    ensures
        uleb_at(s, pos) == Ok::<(u64, int), Error>((value, pos + uleb_bytes(value as nat).len())),
{
    lemma_pow128_values();
    lemma_uleb_groups_round_trip(s, pos, pos, 0, 0, value as nat);
}

/// The value range of a signed value behind `index` groups.
spec fn sleb_fits(v: int, p: int) -> bool {
    -0x8000_0000_0000_0000 <= v * p && v * p + p <= 0x8000_0000_0000_0000
}

proof fn lemma_sleb_groups_round_trip(s: Seq<u8>, start: int, pos: int, index: nat, acc: nat, v: int)
    requires
        bytes::holds_at(s, pos, sleb_bytes(v)),
        index < 10,
        acc < pow128(index),
        sleb_fits(v, pow128(index) as int) || (index == 9 && (v == 0 || v == -1)),
    ensures
        sleb_groups(s, start, pos, index, acc, 64) == Ok::<(i64, int), Error>(
            ((acc + v * pow128(index)) as i64, pos + sleb_bytes(v).len()),
        ),
    decreases
            (if v < 0 {
                -v
            } else {
                v
            }),
{
    let p = pow128(index) as int;
    lemma_pow128_pos(index);
    lemma_small_index(index);
    lemma_pow128_values();
    lemma2_to64();
    lemma_pow2_unfold(64);
    bytes::lemma_holds_at_index(s, pos, sleb_bytes(v), 0);
    lemma_split(v, p);
    let low = v % 128;
    let rest = v / 128;
    if sleb_ends(low, rest) {
        assert(s[pos] % 128 == low);
        assert(low * p - 128 * p == v * p || low * p == v * p);
        if index == 9 && (v == 0 || v == -1) {
            assert(v * p == 0 || v * p == -p);
        }
    } else {
        let first = seq![(128 + low) as u8];
        bytes::lemma_holds_at_split(s, pos, first, sleb_bytes(rest));
        assert(s[pos] % 128 == low);
        assert(low * p + p <= 128 * p && 0 <= low * p) by (nonlinear_arith)
            requires
                0 <= low <= 127,
                p > 0,
        ;
        if index == 9 {
            assert(false) by {
                if !(v == 0 || v == -1) {
                    assert(v * p >= p || v * p <= -2 * p) by (nonlinear_arith)
                        requires
                            v >= 1 || v <= -2,
                            p > 0,
                    ;
                }
            }
        }
        let q = 128 * p;
        assert(sleb_fits(rest, q) || (index == 8 && (rest == 0 || rest == -1))) by {
            // `v` is at least 64 or at most -65 here, so its groups above matter.
            assert(v * p == low * p + rest * q);
            assert(rest * q <= v * p <= rest * q + q - p);
            if index == 8 {
                assert(q == 0x8000_0000_0000_0000);
                assert(rest * q > -2 * q ==> rest > -2) by (nonlinear_arith)
                    requires
                        q > 0,
                ;
                assert(rest * q < 1 * q ==> rest < 1) by (nonlinear_arith)
                    requires
                        q > 0,
                ;
            } else {
                lemma_multiple_between(index, rest);
            }
        }
        assert(acc + low * p < q);
        lemma_sleb_groups_round_trip(s, start, pos + 1, index + 1, (acc + low * p) as nat, rest);
    }
}

/// The bounds of the signed range are multiples of every group weight that is
/// used below the last one.
proof fn lemma_multiple_between(index: nat, rest: int)
    requires
        index < 8,
        rest * (128 * pow128(index)) < 0x8000_0000_0000_0000,
        rest * (128 * pow128(index)) + 128 * pow128(index) > -0x8000_0000_0000_0000,
    ensures
        sleb_fits(rest, 128 * pow128(index) as int),
{
    lemma_pow128_values();
    assert(index == 0 || index == 1 || index == 2 || index == 3 || index == 4 || index == 5 || index
        == 6 || index == 7);
    let q = 128 * pow128(index) as int;
    let m = pow128((8 - index) as nat) as int;
    assert(m * q == 0x8000_0000_0000_0000) by (nonlinear_arith)
        requires
            (m == 0x100_0000_0000_0000 && q == 0x80) || (m == 0x2_0000_0000_0000 && q == 0x4000) || (
            m == 0x400_0000_0000 && q == 0x20_0000) || (m == 0x8_0000_0000 && q == 0x1000_0000) || (m
                == 0x1000_0000 && q == 0x8_0000_0000) || (m == 0x20_0000 && q == 0x400_0000_0000)
                || (m == 0x4000 && q == 0x2_0000_0000_0000) || (m == 0x80 && q
                == 0x100_0000_0000_0000),
    ;
    assert(rest < m) by (nonlinear_arith)
        requires
            rest * q < m * q,
            q > 0,
    ;
    assert(rest + 1 > -m) by (nonlinear_arith)
        requires
            rest * q + q > -(m * q),
            q > 0,
    ;
    assert((rest + 1) * q <= m * q && -m * q <= rest * q) by (nonlinear_arith)
        requires
            rest < m,
            rest + 1 > -m,
            q > 0,
    ;
    assert((rest + 1) * q == rest * q + q && -m * q == -(m * q)) by (nonlinear_arith);
}

/// Reading gives back what was written as a signed LEB128 value.
pub proof fn law_sleb_round_trip(s: Seq<u8>, pos: int, value: i64)
    requires
        bytes::holds_at(s, pos, sleb_bytes(value as int)),
    ensures
        sleb_at(s, pos) == Ok::<(i64, int), Error>((value, pos + sleb_bytes(value as int).len())),
{
    lemma_pow128_values();
    lemma_sleb_groups_round_trip(s, pos, pos, 0, 0, value as int);
}

/// Every encoding holds at least one byte.
pub proof fn lemma_leb_nonempty(u: nat, v: int)
    ensures
        uleb_bytes(u).len() >= 1,
        sleb_bytes(v).len() >= 1,
{
}

/// A value that was read stands behind at least one byte of the input.
pub proof fn lemma_uleb_advances(s: Seq<u8>, start: int, pos: int, index: nat, acc: nat, bits: u8)
    requires
        0 <= pos,
    ensures
        uleb_groups(s, start, pos, index, acc, bits) matches Ok((v, end)) ==> pos < end <= s.len(),
    decreases group_limit(bits) - index,
{
    if index < group_limit(bits) && pos < s.len() && s[pos] >= 128 {
        lemma_uleb_advances(
            s,
            start,
            pos + 1,
            index + 1,
            acc + (s[pos] % 128) as nat * pow128(index),
            bits,
        );
    }
}

/// A value that was read stands behind at least one byte of the input.
pub proof fn lemma_sleb_advances(s: Seq<u8>, start: int, pos: int, index: nat, acc: nat, bits: u8)
    requires
        0 <= pos,
    ensures
        sleb_groups(s, start, pos, index, acc, bits) matches Ok((v, end)) ==> pos < end <= s.len(),
    decreases group_limit(bits) - index,
{
    if index < group_limit(bits) && pos < s.len() && s[pos] >= 128 {
        lemma_sleb_advances(
            s,
            start,
            pos + 1,
            index + 1,
            acc + (s[pos] % 128) as nat * pow128(index),
            bits,
        );
    }
}

/// Number of values of `bits` bits, less one.
fn uleb_maximum(bits: u8) -> (max: u64)
    requires
        1 <= bits <= 64,
    ensures
        max == pow2(bits as nat) - 1,
{
    proof {
        lemma2_to64();
    }
    if bits == 64 {
        u64::MAX
    } else {
        proof {
            lemma_pow2_strictly_increases(bits as nat, 64);
            vstd::bits::lemma_u64_shl_is_mul(1u64, bits as u64);
            vstd::arithmetic::power2::lemma_pow2_pos(bits as nat);
        }
        (1u64 << (bits as u64)) - 1
    }
}

/// Reads an unsigned LEB128 value that must fit in `u64`.
pub fn read_uleb(cursor: &mut Cursor<'_>) -> (result: Result<u64, Error>)
    requires
        old(cursor).wf(),
    ensures
        Cursor::reads(
            *old(cursor),
            *final(cursor),
            result,
            uleb_at(old(cursor).bytes@, old(cursor).position as int),
        ),
        result is Ok ==> final(cursor).position > old(cursor).position,
{
    read_uleb_bounded(cursor, MAXIMUM_BITS)
}

/// Reads an unsigned LEB128 value that must fit in `bits` bits.
pub fn read_uleb_bounded(cursor: &mut Cursor<'_>, bits: u8) -> (result: Result<u64, Error>)
    requires
        old(cursor).wf(),
    ensures
        Cursor::reads(
            *old(cursor),
            *final(cursor),
            result,
            uleb_bounded_at(old(cursor).bytes@, old(cursor).position as int, bits),
        ),
        result is Ok ==> final(cursor).position > old(cursor).position,
{
    if bits == 0 || bits > MAXIMUM_BITS {
        return Err(
            Error::OutOfRange {
                field: "ULEB128 bit width",
                value: bits as u64,
                max: MAXIMUM_BITS as u64,
            },
        );
    }
    let start: usize = cursor.position();
    let limit: u8 = (bits + 6) / 7;
    let maximum: u64 = uleb_maximum(bits);
    let mut index: u8 = 0;
    let mut value: u64 = 0;
    let mut weight: u64 = 1;
    proof {
        lemma_pow128_values();
    }
    while index < limit
        invariant
            cursor.wf(),
            cursor.same_input(*old(cursor)),
            1 <= bits <= 64,
            limit == group_limit(bits),
            limit <= 10,
            index <= limit,
            maximum == pow2(bits as nat) - 1,
            start == old(cursor).position,
            cursor.position == start + index,
            index < 10 ==> weight == pow128(index as nat),
            index < 10 ==> value < pow128(index as nat),
            uleb_bounded_at(old(cursor).bytes@, start as int, bits) == uleb_groups(
                cursor.bytes@,
                start as int,
                cursor.position as int,
                index as nat,
                value as nat,
                bits,
            ),
        decreases limit - index,
    {
        let byte: u8 = match cursor.read_u8() {
            Ok(byte) => byte,
            Err(_) => return Err(
                Error::MalformedUleb { offset: start, reason: "unterminated sequence" },
            ),
        };
        let payload: u64 = (byte % 128) as u64;
        proof {
            lemma_small_index(index as nat);
            lemma_pow128_values();
            let w = weight as int;
            let q = u64::MAX as int / w;
            assert(payload as int > q <==> payload as int * w > u64::MAX) by (nonlinear_arith)
                requires
                    w > 0,
                    q == u64::MAX as int / w,
            ;
            assert(payload as int * w <= 127 * w) by (nonlinear_arith)
                requires
                    payload <= 127,
                    w > 0,
            ;
            assert(index == 9 ==> w == 0x8000_0000_0000_0000);
            assert(w == 0x8000_0000_0000_0000 && payload as int * w <= u64::MAX ==> payload <= 1)
                by (nonlinear_arith);
            assert(payload <= 1 ==> payload as int * w <= w) by (nonlinear_arith)
                requires
                    w > 0,
            ;
            if index < 9 {
                assert(128 * w <= pow128(9)) by {
                    lemma_small_index((index + 1) as nat);
                }
            }
        }
        if payload > u64::MAX / weight {
            return Err(Error::MalformedUleb { offset: start, reason: "value exceeds u64" });
        }
        let next: u64 = value + payload * weight;
        if byte < 128 {
            if next > maximum {
                return Err(
                    Error::MalformedUleb {
                        offset: start,
                        reason: "value exceeds requested bit width",
                    },
                );
            }
            return Ok(next);
        }
        value = next;
        index = index + 1;
        if index < 10 {
            weight = weight * 128;
        }
    }
    Err(Error::MalformedUleb { offset: start, reason: "sequence is too long" })
}

/// Reads a signed LEB128 value that must fit in `i64`.
pub fn read_sleb(cursor: &mut Cursor<'_>) -> (result: Result<i64, Error>)
    requires
        old(cursor).wf(),
    ensures
        Cursor::reads(
            *old(cursor),
            *final(cursor),
            result,
            sleb_at(old(cursor).bytes@, old(cursor).position as int),
        ),
        result is Ok ==> final(cursor).position > old(cursor).position,
{
    read_sleb_bounded(cursor, MAXIMUM_BITS)
}

/// Reads a signed LEB128 value that must fit in `bits` bits.
pub fn read_sleb_bounded(cursor: &mut Cursor<'_>, bits: u8) -> (result: Result<i64, Error>)
    requires
        old(cursor).wf(),
    ensures
        Cursor::reads(
            *old(cursor),
            *final(cursor),
            result,
            sleb_bounded_at(old(cursor).bytes@, old(cursor).position as int, bits),
        ),
        result is Ok ==> final(cursor).position > old(cursor).position,
{
    if bits == 0 || bits > MAXIMUM_BITS {
        return Err(
            Error::OutOfRange {
                field: "SLEB128 bit width",
                value: bits as u64,
                max: MAXIMUM_BITS as u64,
            },
        );
    }
    let start: usize = cursor.position();
    let limit: u8 = (bits + 6) / 7;
    let magnitude: i128 = (uleb_maximum(bits) / 2) as i128 + 1;
    proof {
        lemma_pow2_unfold(bits as nat);
        lemma_pow128_values();
        lemma2_to64();
        if bits < 64 {
            lemma_pow2_strictly_increases(bits as nat, 64);
        }
        vstd::arithmetic::power2::lemma_pow2_pos((bits - 1) as nat);
        assert(magnitude == pow2((bits - 1) as nat));
    }
    let mut index: u8 = 0;
    let mut value: i128 = 0;
    let mut weight: i128 = 1;
    while index < limit
        invariant
            cursor.wf(),
            cursor.same_input(*old(cursor)),
            1 <= bits <= 64,
            limit == group_limit(bits),
            limit <= 10,
            index <= limit,
            magnitude == pow2((bits - 1) as nat),
            0 < magnitude <= 0x8000_0000_0000_0000,
            start == old(cursor).position,
            cursor.position == start + index,
            weight == pow128(index as nat),
            0 <= value < pow128(index as nat),
            sleb_bounded_at(old(cursor).bytes@, start as int, bits) == sleb_groups(
                cursor.bytes@,
                start as int,
                cursor.position as int,
                index as nat,
                value as nat,
                bits,
            ),
        decreases limit - index,
    {
        let byte: u8 = match cursor.read_u8() {
            Ok(byte) => byte,
            Err(_) => return Err(
                Error::MalformedSleb { offset: start, reason: "unterminated sequence" },
            ),
        };
        let payload: i128 = (byte % 128) as i128;
        proof {
            lemma_small_index(index as nat);
            lemma_pow128_values();
            let w = weight as int;
            assert(0 <= payload as int * w <= 127 * w) by (nonlinear_arith)
                requires
                    0 <= payload <= 127,
                    w > 0,
            ;
        }
        let next: i128 = value + payload * weight;
        if byte < 128 {
            let signed: i128 = if byte >= 64 {
                next - 128 * weight
            } else {
                next
            };
            if signed < -magnitude || signed >= magnitude {
                if bits < MAXIMUM_BITS {
                    return Err(
                        Error::MalformedSleb {
                            offset: start,
                            reason: "value exceeds requested bit width",
                        },
                    );
                }
                return Err(Error::MalformedSleb { offset: start, reason: "value exceeds i64" });
            }
            return Ok(signed as i64);
        }
        value = next;
        index = index + 1;
        weight = weight * 128;
    }
    Err(Error::MalformedSleb { offset: start, reason: "sequence is too long" })
}

/// Writes the shortest unsigned LEB128 encoding of `value`.
pub fn write_uleb(output: &mut Encoder, value: u64)
    ensures
        Encoder::appends(*old(output), *final(output), uleb_bytes(value as nat)),
{
    let mut rest: u64 = value;
    while rest >= 128
        invariant
            output.endian == old(output).endian,
            output.bytes@ + uleb_bytes(rest as nat) == old(output).bytes@ + uleb_bytes(
                value as nat,
            ),
        decreases rest,
    {
        let ghost before = output.bytes@;
        output.write_u8((128 + rest % 128) as u8);
        assert(output.bytes@ + uleb_bytes((rest / 128) as nat) =~= before + uleb_bytes(
            rest as nat,
        ));
        rest = rest / 128;
    }
    output.write_u8(rest as u8);
}

/// Writes the shortest signed LEB128 encoding of `value`.
pub fn write_sleb(output: &mut Encoder, value: i64)
    ensures
        Encoder::appends(*old(output), *final(output), sleb_bytes(value as int)),
{
    let mut rest: i64 = value;
    loop
        invariant
            output.endian == old(output).endian,
            output.bytes@ + sleb_bytes(rest as int) == old(output).bytes@ + sleb_bytes(
                value as int,
            ),
        decreases
                (if rest < 0 {
                    -rest as int
                } else {
                    rest as int
                }),
    {
        let ghost before = output.bytes@;
        let higher: i64 = if rest >= 0 {
            rest / 128
        } else {
            -((-(rest + 1)) / 128) - 1
        };
        let low: u8 = (rest - higher * 128) as u8;
        proof {
            assert(higher as int == rest as int / 128 && low as int == rest as int % 128);
        }
        if (higher == 0 && low < 64) || (higher == -1 && low >= 64) {
            output.write_u8(low);
            return ;
        }
        output.write_u8(128 + low);
        assert(output.bytes@ + sleb_bytes(higher as int) =~= before + sleb_bytes(rest as int));
        rest = higher;
    }
}

} // verus!
