//! Numbers as text.
use vstd::prelude::*;
use vstd::string::*;

verus! {

/// The character of a digit in a base up to sixteen.
pub open spec fn digit(value: nat) -> char {
    if value < 10 {
        (0x30 + value) as char
    } else {
        (0x61 + (value - 10)) as char
    }
}

/// The digits of a number, the most significant one first.
pub open spec fn digits(number: nat, base: nat) -> Seq<char>
    decreases number,
{
    if base < 2 {
        Seq::empty()
    } else if number < base {
        seq![digit(number)]
    } else {
        proof {
            assert(number / base < number) by (nonlinear_arith)
                requires
                    2 <= base <= number,
            ;
        }
        digits(number / base, base).push(digit(number % base))
    }
}

/// The decimal digits of a number.
pub open spec fn decimal(number: nat) -> Seq<char> {
    digits(number, 10)
}

/// The lower-case hexadecimal digits of a number, after `0x`.
pub open spec fn hexadecimal(number: nat) -> Seq<char> {
    "0x"@ + digits(number, 16)
}

/// A number in eight lower-case hexadecimal digits.
pub open spec fn eight_digits(number: u32) -> Seq<char> {
    Seq::new(
        8,
        |i: int|
            digit(
                if i == 0 {
                    number as nat / 0x1000_0000
                } else if i == 1 {
                    number as nat / 0x100_0000 % 16
                } else if i == 2 {
                    number as nat / 0x10_0000 % 16
                } else if i == 3 {
                    number as nat / 0x1_0000 % 16
                } else if i == 4 {
                    number as nat / 0x1000 % 16
                } else if i == 5 {
                    number as nat / 0x100 % 16
                } else if i == 6 {
                    number as nat / 0x10 % 16
                } else {
                    number as nat % 16
                },
            ),
    )
}

fn digit_text(value: u64) -> (text: &'static str)
    requires
        value < 16,
    ensures
        text@ == seq![digit(value as nat)],
{
    proof {
        reveal_strlit("0");
        reveal_strlit("1");
        reveal_strlit("2");
        reveal_strlit("3");
        reveal_strlit("4");
        reveal_strlit("5");
        reveal_strlit("6");
        reveal_strlit("7");
        reveal_strlit("8");
        reveal_strlit("9");
        reveal_strlit("a");
        reveal_strlit("b");
        reveal_strlit("c");
        reveal_strlit("d");
        reveal_strlit("e");
        reveal_strlit("f");
    }
    let text = match value {
        0 => "0",
        1 => "1",
        2 => "2",
        3 => "3",
        4 => "4",
        5 => "5",
        6 => "6",
        7 => "7",
        8 => "8",
        9 => "9",
        10 => "a",
        11 => "b",
        12 => "c",
        13 => "d",
        14 => "e",
        _ => "f",
    };
    assert(text@ =~= seq![digit(value as nat)]);
    text
}

fn push_digits(output: &mut String, number: u64, base: u64)
    requires
        2 <= base <= 16,
    ensures
        final(output)@ == old(output)@ + digits(number as nat, base as nat),
    decreases number,
{
    let ghost start = output@;
    if number < base {
        output.append(digit_text(number));
    } else {
        proof {
            assert(number / base < number) by (nonlinear_arith)
                requires
                    2 <= base <= number,
            ;
        }
        push_digits(output, number / base, base);
        output.append(digit_text(number % base));
        proof {
            let head = digits((number / base) as nat, base as nat);
            let last = digit((number % base) as nat);
            assert(start + head + seq![last] =~= start + head.push(last));
        }
    }
}

/// Appends the decimal digits of a number.
pub fn push_decimal(output: &mut String, number: u64)
    ensures
        final(output)@ == old(output)@ + decimal(number as nat),
{
    push_digits(output, number, 10);
}

/// Appends `0x` and the hexadecimal digits of a number.
pub fn push_hexadecimal(output: &mut String, number: u64)
    ensures
        final(output)@ == old(output)@ + hexadecimal(number as nat),
{
    let ghost start = output@;
    output.append("0x");
    push_digits(output, number, 16);
    assert(start + "0x"@ + digits(number as nat, 16) =~= start + hexadecimal(number as nat));
}

/// Appends eight hexadecimal digits of a number.
pub fn push_eight_digits(output: &mut String, number: u32)
    ensures
        final(output)@ == old(output)@ + eight_digits(number),
{
    let ghost start = output@;
    let value: u64 = number as u64;
    output.append(digit_text(value / 0x1000_0000));
    output.append(digit_text(value / 0x100_0000 % 16));
    output.append(digit_text(value / 0x10_0000 % 16));
    output.append(digit_text(value / 0x1_0000 % 16));
    output.append(digit_text(value / 0x1000 % 16));
    output.append(digit_text(value / 0x100 % 16));
    output.append(digit_text(value / 0x10 % 16));
    output.append(digit_text(value % 16));
    assert(output@ =~= start + eight_digits(number));
}

/// Whether a character is a lower-case hexadecimal digit.
pub open spec fn is_digit(c: char) -> bool {
    '0' <= c <= '9' || 'a' <= c <= 'f'
}

/// The number that a lower-case hexadecimal digit stands for.
pub open spec fn digit_value(c: char) -> int {
    if c <= '9' {
        c as int - '0' as int
    } else {
        c as int - 'a' as int + 10
    }
}

/// The number that digits stand for.
pub open spec fn value_of(text: Seq<char>, base: nat) -> int
    decreases text.len(),
{
    if text.len() == 0 {
        0
    } else {
        base * value_of(text.drop_last(), base) + digit_value(text.last())
    }
}

/// A digit stands for its value.
pub proof fn lemma_digit_value(value: nat)
    requires
        value < 16,
    ensures
        is_digit(digit(value)),
        digit_value(digit(value)) == value,
        digit(value) == '0' <==> value == 0,
{
}

/// The digits of a number stand for it, and the first of several is not zero.
pub proof fn law_digits_read_back(number: nat, base: nat)
    requires
        2 <= base <= 16,
    ensures
        digits(number, base).len() > 0,
        forall|i: int|
            0 <= i < digits(number, base).len() ==> is_digit(#[trigger] digits(number, base)[i]),
        digits(number, base).len() > 1 ==> digits(number, base)[0] != '0',
        number > 0 ==> digits(number, base)[0] != '0',
        value_of(digits(number, base), base) == number,
    decreases number,
{
    let text = digits(number, base);
    if number < base {
        lemma_digit_value(number);
        let before = value_of(text.drop_last(), base);
        assert(before == 0);
        assert(base * before == 0) by (nonlinear_arith)
            requires
                before == 0,
        ;
    } else {
        assert(number / base < number && number / base > 0) by (nonlinear_arith)
            requires
                2 <= base <= number,
        ;
        law_digits_read_back(number / base, base);
        vstd::arithmetic::div_mod::lemma_fundamental_div_mod(number as int, base as int);
        assert(number % base < base) by (nonlinear_arith)
            requires
                2 <= base,
        ;
        lemma_digit_value(number % base);
        let before = digits(number / base, base);
        assert(text.drop_last() =~= before);
        assert forall|i: int| 0 <= i < text.len() implies is_digit(#[trigger] text[i]) by {
            if i < before.len() {
                assert(text[i] == before[i]);
            }
        }
        assert(text[0] == before[0]);
    }
}

} // verus!
