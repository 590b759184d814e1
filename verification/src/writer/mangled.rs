//! Laws on mangled names.
use vstd::prelude::*;

use crate::bytes;
use crate::model::FunctionView;
use crate::writer::finalize;

verus! {

/// The number that decimal digits stand for.
pub open spec fn value_of(digits: Seq<u8>) -> nat
    decreases digits.len(),
{
    if digits.len() == 0 {
        0
    } else {
        10 * value_of(digits.drop_last()) + (digits.last() - 0x30) as nat
    }
}

/// Whether bytes are digits only.
pub open spec fn are_digits(digits: Seq<u8>) -> bool {
    forall|i: int| 0 <= i < digits.len() ==> 0x30 <= #[trigger] digits[i] <= 0x39
}

/// Whether bytes are a number in decimal digits without a leading zero.
pub open spec fn is_number(digits: Seq<u8>, number: nat) -> bool {
    &&& digits.len() > 0
    &&& are_digits(digits)
    &&& digits.len() > 1 ==> digits[0] != 0x30
    &&& value_of(digits) == number
}

proof fn lemma_decimal_is_number(number: nat)
    ensures
        is_number(finalize::decimal(number), number),
        number > 0 ==> finalize::decimal(number)[0] != 0x30,
    decreases number,
{
    let digits = finalize::decimal(number);
    if number < 10 {
        assert(digits.drop_last() =~= Seq::empty());
        assert(value_of(digits.drop_last()) == 0);
    } else {
        let before = finalize::decimal(number / 10);
        lemma_decimal_is_number(number / 10);
        assert(digits.drop_last() =~= before);
        assert forall|i: int| 0 <= i < digits.len() implies 0x30 <= #[trigger] digits[i]
            <= 0x39 by {
            if i < before.len() {
                assert(digits[i] == before[i]);
            }
        }
        assert(digits[0] == before[0]);
    }
}

proof fn lemma_leading_digit(digits: Seq<u8>)
    requires
        digits.len() > 0,
        are_digits(digits),
        digits[0] != 0x30,
    ensures
        value_of(digits) > 0,
    decreases digits.len(),
{
    let before = digits.drop_last();
    if before.len() > 0 {
        assert(before[0] == digits[0]);
        assert forall|i: int| 0 <= i < before.len() implies 0x30 <= #[trigger] before[i]
            <= 0x39 by {
            assert(before[i] == digits[i]);
        }
        lemma_leading_digit(before);
    }
}

proof fn lemma_number_is_decimal(digits: Seq<u8>, number: nat)
    requires
        is_number(digits, number),
    ensures
        digits == finalize::decimal(number),
    decreases digits.len(),
{
    let before = digits.drop_last();
    let last = (digits.last() - 0x30) as nat;
    if digits.len() == 1 {
        assert(value_of(before) == 0);
        assert(digits =~= finalize::decimal(number));
    } else {
        assert(before[0] == digits[0]);
        assert forall|i: int| 0 <= i < before.len() implies 0x30 <= #[trigger] before[i]
            <= 0x39 by {
            assert(before[i] == digits[i]);
        }
        lemma_leading_digit(before);
        assert(number == 10 * value_of(before) + last);
        assert(number / 10 == value_of(before) && number % 10 == last);
        lemma_number_is_decimal(before, number / 10);
        assert(digits =~= before.push(digits.last()));
    }
}

/// Whether a name starts as mangled names do: with `_Z`, `$s` or `$S`.
pub open spec fn starts_mangled(name: Seq<u8>) -> bool {
    ||| bytes::holds_at(name, 0, seq![0x5f, 0x5a])
    ||| bytes::holds_at(name, 0, seq![0x24, 0x73])
    ||| bytes::holds_at(name, 0, seq![0x24, 0x53])
}

/// Whether a name holds another behind the length of it.
pub open spec fn holds_name(name: Seq<u8>, plain: Seq<u8>, at: int, digits: Seq<u8>) -> bool {
    is_number(digits, plain.len()) && bytes::holds_at(name, at, digits + plain)
}

/// Whether a name is the mangled form of a plain one: it starts as mangled names do,
/// and holds the plain name behind its length. A plain name that is empty has any
/// other name for its mangled form.
pub open spec fn is_mangled_form(name: Seq<u8>, plain: Seq<u8>) -> bool {
    if plain.len() == 0 {
        name.len() > 0
    } else {
        &&& starts_mangled(name)
        &&& !starts_mangled(plain)
        &&& exists|at: int, digits: Seq<u8>| #[trigger] holds_name(name, plain, at, digits)
    }
}

proof fn lemma_starts_mangled(name: Seq<u8>)
    ensures
        starts_mangled(name) <==> finalize::is_mangled(name),
{
    if finalize::is_mangled(name) {
        assert(name.subrange(0, 2) =~= seq![name[0], name[1]]);
    }
    if starts_mangled(name) {
        let start = name.subrange(0, 2);
        assert(start[0] == name[0] && start[1] == name[1]);
    }
}

/// A name is taken for the mangled form of another exactly where it is one.
pub proof fn law_mangled_names_hold_plain_ones(name: Seq<u8>, plain: Seq<u8>)
    ensures
        finalize::mangles(name, plain) <==> is_mangled_form(name, plain),
{
    lemma_starts_mangled(name);
    lemma_starts_mangled(plain);
    let digits = finalize::decimal(plain.len());
    let part = digits + plain;
    lemma_decimal_is_number(plain.len());
    if finalize::occurs(part, name) {
        let at = choose|at: int|
            0 <= at <= name.len() - part.len() && #[trigger] name.subrange(at, at + part.len())
                == part;
        assert(holds_name(name, plain, at, digits));
    }
    if exists|at: int, d: Seq<u8>| #[trigger] holds_name(name, plain, at, d) {
        let (at, d) = choose|at: int, d: Seq<u8>| #[trigger] holds_name(name, plain, at, d);
        lemma_number_is_decimal(d, plain.len());
        assert(name.subrange(at, at + part.len()) == part);
    }
}

/// Of two functions that share a range, one with records is kept with them. Its name
/// is that of the one without where that is its mangled form.
pub proof fn law_mangled_names_are_kept(bare: FunctionView, full: FunctionView)
    requires
        bare.lines.len() == 0 && bare.inline is None && bare.call_sites.len() == 0,
        full.lines.len() > 0 || full.inline is Some || full.call_sites.len() > 0,
    ensures
        ({
            let kept = finalize::kept(bare, full);
            &&& kept.lines == full.lines && kept.inline == full.inline && kept.call_sites
                == full.call_sites && kept.merged == full.merged && kept.range == full.range
            &&& kept.name == if is_mangled_form(bare.name, full.name) {
                bare.name
            } else {
                full.name
            }
        }),
        finalize::kept(full, bare) == full,
{
    law_mangled_names_hold_plain_ones(bare.name, full.name);
}

} // verus!
