//! Fixed-width integers as byte sequences.
use vstd::prelude::*;
use crate::endian::Endian;

verus! {

/// `256` to the power `n`: the number of values that `n` bytes can hold.
pub open spec fn pow256(n: nat) -> nat
    decreases n,
{
    if n == 0 {
        1
    } else {
        256 * pow256((n - 1) as nat)
    }
}

/// Value of `b` read with its least-significant byte first.
pub open spec fn le_value(b: Seq<u8>) -> nat
    decreases b.len(),
{
    if b.len() == 0 {
        0
    } else {
        b[0] as nat + 256 * le_value(b.drop_first())
    }
}

/// Value of `b` read with its most-significant byte first.
pub open spec fn be_value(b: Seq<u8>) -> nat
    decreases b.len(),
{
    if b.len() == 0 {
        0
    } else {
        256 * be_value(b.drop_last()) + b.last() as nat
    }
}

/// Value of the bytes `b` in the given byte order.
pub open spec fn uint_value(b: Seq<u8>, endian: Endian) -> nat {
    match endian {
        Endian::Little => le_value(b),
        Endian::Big => be_value(b),
    }
}

/// The low `n` bytes of `v`, least-significant byte first.
pub open spec fn le_bytes(v: nat, n: nat) -> Seq<u8>
    decreases n,
{
    if n == 0 {
        seq![]
    } else {
        seq![(v % 256) as u8] + le_bytes(v / 256, (n - 1) as nat)
    }
}

/// The low `n` bytes of `v`, most-significant byte first.
pub open spec fn be_bytes(v: nat, n: nat) -> Seq<u8>
    decreases n,
{
    if n == 0 {
        seq![]
    } else {
        be_bytes(v / 256, (n - 1) as nat).push((v % 256) as u8)
    }
}

/// The low `n` bytes of `v` in the given byte order.
pub open spec fn uint_bytes(v: nat, n: nat, endian: Endian) -> Seq<u8> {
    match endian {
        Endian::Little => le_bytes(v, n),
        Endian::Big => be_bytes(v, n),
    }
}

/// `count` zero bytes.
pub open spec fn zeros(count: nat) -> Seq<u8> {
    Seq::new(count, |i: int| 0u8)
}

/// Whether the bytes `part` stand in `s` from `pos` on.
pub open spec fn holds_at(s: Seq<u8>, pos: int, part: Seq<u8>) -> bool {
    &&& 0 <= pos
    &&& pos + part.len() <= s.len()
    &&& s.subrange(pos, pos + part.len()) == part
}

/// `b` overwritten by `part` from `at` on.
pub open spec fn overwrite(b: Seq<u8>, at: int, part: Seq<u8>) -> Seq<u8> {
    b.subrange(0, at) + part + b.subrange(at + part.len(), b.len() as int)
}

/// Number of zero bytes that bring `len` to the next multiple of `alignment`.
pub open spec fn padding(len: nat, alignment: nat) -> nat {
    if len % alignment == 0 {
        0
    } else {
        (alignment - len % alignment) as nat
    }
}

pub proof fn lemma_pow256_values()
    ensures
        pow256(0) == 1,
        pow256(1) == 0x100,
        pow256(2) == 0x1_0000,
        pow256(3) == 0x100_0000,
        pow256(4) == 0x1_0000_0000,
        pow256(5) == 0x100_0000_0000,
        pow256(6) == 0x1_0000_0000_0000,
        pow256(7) == 0x100_0000_0000_0000,
        pow256(8) == 0x1_0000_0000_0000_0000,
{
    reveal_with_fuel(pow256, 9);
}

pub proof fn lemma_uint_bytes_len(v: nat, n: nat, endian: Endian)
    ensures
        uint_bytes(v, n, endian).len() == n,
        le_bytes(v, n).len() == n,
        be_bytes(v, n).len() == n,
    decreases n,
{
    if n > 0 {
        lemma_uint_bytes_len(v / 256, (n - 1) as nat, endian);
    }
}

pub proof fn lemma_uint_value_bound(b: Seq<u8>, endian: Endian)
    ensures
        uint_value(b, endian) < pow256(b.len()),
        le_value(b) < pow256(b.len()),
        be_value(b) < pow256(b.len()),
    decreases b.len(),
{
    if b.len() > 0 {
        lemma_uint_value_bound(b.drop_first(), endian);
        lemma_uint_value_bound(b.drop_last(), endian);
    }
}

proof fn lemma_le_round_trip(v: nat, n: nat)
    requires
        v < pow256(n),
    ensures
        le_value(le_bytes(v, n)) == v,
    decreases n,
{
    if n > 0 {
        assert(v / 256 < pow256((n - 1) as nat));
        lemma_le_round_trip(v / 256, (n - 1) as nat);
        assert(le_bytes(v, n).drop_first() =~= le_bytes(v / 256, (n - 1) as nat));
    }
}

proof fn lemma_be_round_trip(v: nat, n: nat)
    requires
        v < pow256(n),
    ensures
        be_value(be_bytes(v, n)) == v,
    decreases n,
{
    if n > 0 {
        assert(v / 256 < pow256((n - 1) as nat));
        lemma_be_round_trip(v / 256, (n - 1) as nat);
        assert(be_bytes(v, n).drop_last() =~= be_bytes(v / 256, (n - 1) as nat));
    }
}

/// Reading back the bytes of a value gives the value, in either byte order,
/// when the value fits the width.
pub proof fn lemma_uint_round_trip(v: nat, n: nat, endian: Endian)
    requires
        v < pow256(n),
    ensures
        uint_value(uint_bytes(v, n, endian), endian) == v,
        uint_bytes(v, n, endian).len() == n,
{
    lemma_uint_bytes_len(v, n, endian);
    lemma_le_round_trip(v, n);
    lemma_be_round_trip(v, n);
}

pub proof fn lemma_be_is_reversed_le(v: nat, n: nat)
    ensures
        be_bytes(v, n) == le_bytes(v, n).reverse(),
    decreases n,
{
    lemma_uint_bytes_len(v, n, Endian::Big);
    if n > 0 {
        lemma_be_is_reversed_le(v / 256, (n - 1) as nat);
        lemma_uint_bytes_len(v / 256, (n - 1) as nat, Endian::Big);
        assert(be_bytes(v, n) =~= le_bytes(v, n).reverse());
    } else {
        assert(be_bytes(v, n) =~= le_bytes(v, n).reverse());
    }
}

/// Two parts that stand in a row stand there as one, and the other way round.
pub proof fn lemma_holds_at_split(s: Seq<u8>, pos: int, a: Seq<u8>, b: Seq<u8>)
    ensures
        holds_at(s, pos, a + b) <==> holds_at(s, pos, a) && holds_at(s, pos + a.len(), b),
{
    if holds_at(s, pos, a + b) {
        assert(s.subrange(pos, pos + a.len()) =~= (a + b).subrange(0, a.len() as int)) by {
            assert forall|i: int| 0 <= i < a.len() implies s[pos + i] == (a + b)[i] by {
                assert(s.subrange(pos, pos + (a + b).len())[i] == (a + b)[i]);
            }
        }
        assert((a + b).subrange(0, a.len() as int) =~= a);
        assert(s.subrange(pos + a.len(), pos + a.len() + b.len()) =~= b) by {
            assert forall|i: int| 0 <= i < b.len() implies s[pos + a.len() + i] == b[i] by {
                assert(s.subrange(pos, pos + (a + b).len())[a.len() + i] == (a + b)[a.len() + i]);
            }
        }
    }
    if holds_at(s, pos, a) && holds_at(s, pos + a.len(), b) {
        assert(s.subrange(pos, pos + (a + b).len()) =~= a + b) by {
            assert forall|i: int| 0 <= i < (a + b).len() implies s[pos + i] == (a + b)[i] by {
                if i < a.len() {
                    assert(s.subrange(pos, pos + a.len())[i] == a[i]);
                } else {
                    let k = i - a.len();
                    assert(s.subrange(pos + a.len(), pos + a.len() + b.len())[k] == b[k]);
                }
            }
        }
    }
}

/// A byte of a part is the byte of the whole at the same place.
pub proof fn lemma_holds_at_index(s: Seq<u8>, pos: int, part: Seq<u8>, i: int)
    requires
        holds_at(s, pos, part),
        0 <= i < part.len(),
    ensures
        s[pos + i] == part[i],
{
    assert(s.subrange(pos, pos + part.len())[i] == part[i]);
}

/// Value of up to eight bytes, least-significant byte first.
pub fn le_uint(bytes: &[u8]) -> (value: u64)
    requires
        bytes@.len() <= 8,
    ensures
        value == le_value(bytes@),
{
    let mut value: u64 = 0;
    let mut i: usize = bytes.len();
    proof {
        lemma_pow256_values();
        assert(bytes@.subrange(i as int, bytes@.len() as int) =~= Seq::<u8>::empty());
    }
    while i > 0
        invariant
            i <= bytes@.len() <= 8,
            value == le_value(bytes@.subrange(i as int, bytes@.len() as int)),
        decreases i,
    {
        let ghost tail = bytes@.subrange(i as int, bytes@.len() as int);
        i = i - 1;
        proof {
            let whole = bytes@.subrange(i as int, bytes@.len() as int);
            assert(whole.drop_first() =~= tail);
            lemma_uint_value_bound(whole, Endian::Little);
            lemma_pow256_values();
            let n = whole.len();
            assert(n == 1 || n == 2 || n == 3 || n == 4 || n == 5 || n == 6 || n == 7 || n == 8);
        }
        value = value * 256 + bytes[i] as u64;
    }
    assert(bytes@.subrange(0, bytes@.len() as int) =~= bytes@);
    value
}

/// Value of up to eight bytes, most-significant byte first.
pub fn be_uint(bytes: &[u8]) -> (value: u64)
    requires
        bytes@.len() <= 8,
    ensures
        value == be_value(bytes@),
{
    let mut value: u64 = 0;
    let mut i: usize = 0;
    assert(bytes@.subrange(0, 0) =~= Seq::<u8>::empty());
    while i < bytes.len()
        invariant
            i <= bytes@.len() <= 8,
            value == be_value(bytes@.subrange(0, i as int)),
        decreases bytes@.len() - i,
    {
        proof {
            let whole = bytes@.subrange(0, i + 1);
            assert(whole.drop_last() =~= bytes@.subrange(0, i as int));
            lemma_uint_value_bound(whole, Endian::Big);
            lemma_pow256_values();
            let n = whole.len();
            assert(n == 1 || n == 2 || n == 3 || n == 4 || n == 5 || n == 6 || n == 7 || n == 8);
        }
        value = value * 256 + bytes[i] as u64;
        i = i + 1;
    }
    assert(bytes@.subrange(0, bytes@.len() as int) =~= bytes@);
    value
}

/// The low `width` bytes of `value` in the given byte order.
pub fn uint_to_bytes(value: u64, width: usize, endian: Endian) -> (bytes: Vec<u8>)
    requires
        width <= 8,
    ensures
        bytes@ == uint_bytes(value as nat, width as nat, endian),
{
    let mut low: Vec<u8> = Vec::new();
    let mut rest: u64 = value;
    let mut i: usize = 0;
    while i < width
        invariant
            i <= width,
            low@ + le_bytes(rest as nat, (width - i) as nat) == le_bytes(value as nat, width as nat),
        decreases width - i,
    {
        let ghost before = low@;
        proof {
            assert(le_bytes(rest as nat, (width - i) as nat) == seq![(rest % 256) as u8] + le_bytes(
                rest as nat / 256,
                (width - i - 1) as nat,
            ));
        }
        low.push((rest % 256) as u8);
        proof {
            assert(low@ + le_bytes((rest / 256) as nat, (width - i - 1) as nat) =~= before + le_bytes(
                rest as nat,
                (width - i) as nat,
            ));
        }
        rest = rest / 256;
        i = i + 1;
    }
    assert(low@ =~= low@ + le_bytes(rest as nat, 0));
    match endian {
        Endian::Little => low,
        Endian::Big => {
            let mut bytes: Vec<u8> = Vec::new();
            proof {
                lemma_uint_bytes_len(value as nat, width as nat, endian);
                lemma_be_is_reversed_le(value as nat, width as nat);
            }
            let mut k: usize = low.len();
            while k > 0
                invariant
                    k <= low@.len(),
                    bytes@ == low@.reverse().subrange(0, low@.len() - k),
                decreases k,
            {
                k = k - 1;
                bytes.push(low[k]);
                assert(bytes@ =~= low@.reverse().subrange(0, low@.len() - k));
            }
            assert(bytes@ =~= low@.reverse());
            bytes
        },
    }
}

/// A part of a part is a part of the whole.
pub proof fn lemma_holds_at_chain(s: Seq<u8>, pos: int, part: Seq<u8>, at: int, inner: Seq<u8>)
    requires
        holds_at(s, pos, part),
        holds_at(part, at, inner),
    ensures
        holds_at(s, pos + at, inner),
{
    assert(s.subrange(pos + at, pos + at + inner.len()) =~= s.subrange(
        pos,
        pos + part.len(),
    ).subrange(at, at + inner.len()));
}

} // verus!
