//! Text of numbers, as error messages show it.

use vstd::prelude::*;
use vstd::string::*;

verus! {

/// The character of a hexadecimal (or decimal) digit.
pub open spec fn digit_char(digit: int) -> char {
    if digit == 0 {
        '0'
    } else if digit == 1 {
        '1'
    } else if digit == 2 {
        '2'
    } else if digit == 3 {
        '3'
    } else if digit == 4 {
        '4'
    } else if digit == 5 {
        '5'
    } else if digit == 6 {
        '6'
    } else if digit == 7 {
        '7'
    } else if digit == 8 {
        '8'
    } else if digit == 9 {
        '9'
    } else if digit == 10 {
        'a'
    } else if digit == 11 {
        'b'
    } else if digit == 12 {
        'c'
    } else if digit == 13 {
        'd'
    } else if digit == 14 {
        'e'
    } else {
        'f'
    }
}

/// The digits of `value` in `base`, most significant first, without leading
/// zeros (`0` itself is one digit).
pub open spec fn digits(value: nat, base: nat) -> Seq<char>
    decreases value,
{
    if base < 2 || value < base {
        seq![digit_char(value as int)]
    } else {
        proof {
            vstd::arithmetic::div_mod::lemma_div_decreases(value as int, base as int);
        }
        digits(value / base, base).push(digit_char((value % base) as int))
    }
}

/// Decimal text of a natural number.
pub open spec fn decimal_text(value: nat) -> Seq<char> {
    digits(value, 10)
}

/// Decimal text of an integer, with a minus sign where it is negative.
pub open spec fn signed_text(value: int) -> Seq<char> {
    if value < 0 {
        "-"@ + decimal_text((-value) as nat)
    } else {
        decimal_text(value as nat)
    }
}

/// Hexadecimal text of a natural number, with its `0x` prefix.
pub open spec fn prefixed_hex_text(value: nat) -> Seq<char> {
    "0x"@ + digits(value, 16)
}

/// The digit as a one-character text.
fn digit_text(digit: u64) -> (text: &'static str)
    requires
        digit < 16,
    ensures
        text@ == seq![digit_char(digit as int)],
{
    proof {
        reveal_strlit("0");
        reveal_strlit("1");
        reveal_strlit("2");
        reveal_strlit("3");
        reveal_strlit("4");
        reveal_strlit("5");
        reveal_strlit("6");
        reveal_strlit("7");
        reveal_strlit("8");
        reveal_strlit("9");
        reveal_strlit("a");
        reveal_strlit("b");
        reveal_strlit("c");
        reveal_strlit("d");
        reveal_strlit("e");
        reveal_strlit("f");
    }
    match digit {
        0 => "0",
        1 => "1",
        2 => "2",
        3 => "3",
        4 => "4",
        5 => "5",
        6 => "6",
        7 => "7",
        8 => "8",
        9 => "9",
        10 => "a",
        11 => "b",
        12 => "c",
        13 => "d",
        14 => "e",
        _ => "f",
    }
}

/// Writes `value` in `base`.
fn number_text(value: u64, base: u64) -> (text: String)
    requires
        2 <= base <= 16,
    ensures
        text@ == digits(value as nat, base as nat),
    decreases value,
{
    if value < base {
        String::from_str(digit_text(value))
    } else {
        proof {
            vstd::arithmetic::div_mod::lemma_div_decreases(value as int, base as int);
        }
        let leading = number_text(value / base, base);
        leading.concat(digit_text(value % base))
    }
}

/// Writes a number in decimal.
pub fn decimal(value: u64) -> (text: String)
    ensures
        text@ == decimal_text(value as nat),
{
    number_text(value, 10)
}

/// The last decimal digits of a number, with zeros in front of them where it has
/// fewer.
pub open spec fn last_digits(value: nat, count: nat) -> Seq<char>
    decreases count,
{
    if count == 0 {
        Seq::empty()
    } else {
        last_digits(value / 10, (count - 1) as nat).push(digit_char((value % 10) as int))
    }
}

/// Writes the last decimal digits of a number.
pub fn padded_decimal(value: u64, count: u32) -> (text: String)
    ensures
        text@ == last_digits(value as nat, count as nat),
    decreases count,
{
    if count == 0 {
        String::new()
    } else {
        padded_decimal(value / 10, count - 1).concat(digit_text(value % 10))
    }
}

/// Writes a size or index in decimal.
pub fn decimal_usize(value: usize) -> (text: String)
    ensures
        text@ == decimal_text(value as nat),
{
    number_text(value as u64, 10)
}

/// Writes a signed number in decimal.
pub fn signed_decimal(value: i64) -> (text: String)
    ensures
        text@ == signed_text(value as int),
{
    if value < 0 {
        let magnitude: u64 = (-(value as i128)) as u64;
        String::from_str("-").concat(decimal(magnitude).as_str())
    } else {
        decimal(value as u64)
    }
}

/// Writes a number in hexadecimal after `0x`.
pub fn prefixed_hex(value: u64) -> (text: String)
    ensures
        text@ == prefixed_hex_text(value as nat),
{
    String::from_str("0x").concat(number_text(value, 16).as_str())
}

/// Two lower-case hexadecimal digits for each byte.
pub open spec fn hex_text(bytes: Seq<u8>) -> Seq<char>
    decreases bytes.len(),
{
    if bytes.len() == 0 {
        Seq::empty()
    } else {
        hex_text(bytes.drop_last()).push(digit_char(bytes.last() as int / 16)).push(
            digit_char(bytes.last() as int % 16),
        )
    }
}

/// Writes each byte as two lower-case hexadecimal digits.
pub fn hex(bytes: &[u8]) -> (output: String)
    ensures
        output@ == hex_text(bytes@),
{
    let mut output = String::new();
    let mut index: usize = 0;
    while index < bytes.len()
        invariant
            index <= bytes@.len(),
            output@ == hex_text(bytes@.take(index as int)),
        decreases bytes@.len() - index,
    {
        let byte: u8 = bytes[index];
        output.append(digit_text((byte / 16) as u64));
        output.append(digit_text((byte % 16) as u64));
        proof {
            let done = bytes@.take(index as int + 1);
            assert(done.drop_last() =~= bytes@.take(index as int));
            assert(output@ =~= hex_text(done));
        }
        index = index + 1;
    }
    proof {
        assert(bytes@.take(index as int) =~= bytes@);
    }
    output
}

/// The hexadecimal text of a byte string has two characters for each byte.
pub proof fn hex_text_length(bytes: Seq<u8>)
    ensures
        hex_text(bytes).len() == 2 * bytes.len(),
    decreases bytes.len(),
{
    if bytes.len() > 0 {
        hex_text_length(bytes.drop_last());
    }
}

/// What a digit counts: `0` to `9` their number, `a` to `f` ten to fifteen.
pub open spec fn digit_value(digit: char) -> int {
    if '0' <= digit && digit <= '9' {
        digit as int - '0' as int
    } else {
        digit as int - 'a' as int + 10
    }
}

/// The number that digits write in a base.
pub open spec fn number_written(text: Seq<char>, base: int) -> int {
    text.fold_left(0, |number: int, digit: char| base * number + digit_value(digit))
}

proof fn digits_count(digit: int)
    requires
        0 <= digit < 16,
    ensures
        digit_value(digit_char(digit)) == digit,
        digit_char(digit) == '0' <==> digit == 0,
        digit < 10 ==> '0' <= digit_char(digit) && digit_char(digit) <= '9',
        digit >= 10 ==> 'a' <= digit_char(digit) && digit_char(digit) <= 'f',
{
}

/// The digits of a number write it: read from the left, each digit is added to
/// the base times the number so far. Only zero starts with a zero.
pub proof fn digits_write_numbers(value: nat, base: nat)
    requires
        2 <= base <= 16,
    ensures
        number_written(digits(value, base), base as int) == value,
        digits(value, base).len() >= 1,
        digits(value, base)[0] == '0' <==> value == 0,
        forall|k: int|
            0 <= k < digits(value, base).len() ==> 0 <= digit_value(
                #[trigger] digits(value, base)[k],
            ) < base,
        forall|k: int|
            0 <= k < digits(value, base).len() ==> {
                let digit = #[trigger] digits(value, base)[k];
                ('0' <= digit && digit <= '9') || (base > 10 && 'a' <= digit && digit <= 'f')
            },
    decreases value,
{
    let text = digits(value, base);
    let combine = |number: int, digit: char| base as int * number + digit_value(digit);
    if value < base {
        digits_count(value as int);
        assert(text.drop_last() =~= Seq::<char>::empty());
        assert(text.drop_last().fold_left(0, combine) == 0);
        assert(base * 0 == 0) by (nonlinear_arith);
    } else {
        vstd::arithmetic::div_mod::lemma_div_decreases(value as int, base as int);
        vstd::arithmetic::div_mod::lemma_fundamental_div_mod(value as int, base as int);
        let before = (value / base) as nat;
        assert(before > 0) by {
            vstd::arithmetic::div_mod::lemma_div_non_zero(value as int, base as int);
        }
        digits_write_numbers(before, base);
        digits_count((value % base) as int);
        let shorter = digits(before, base);
        assert(text.drop_last() =~= shorter);
        assert(text[0] == shorter[0]);
        assert forall|k: int| 0 <= k < text.len() implies {
            let digit = #[trigger] text[k];
            &&& 0 <= digit_value(digit) < base
            &&& ('0' <= digit && digit <= '9') || (base > 10 && 'a' <= digit && digit <= 'f')
        } by {
            if k < shorter.len() {
                assert(text[k] == shorter[k]);
            }
        }
    }
}

/// A signed number is written as its size, with a minus sign in front exactly
/// where it is negative; a hexadecimal number has `0x` in front.
pub proof fn signs_stand_in_front(value: int)
    ensures
        signed_text(value) == if value < 0 {
            "-"@ + decimal_text((-value) as nat)
        } else {
            decimal_text(value as nat)
        },
        value >= 0 ==> number_written(signed_text(value), 10) == value,
        value < 0 ==> number_written(signed_text(value).skip(1), 10) == -value
            && signed_text(value)[0] == '-',
        value >= 0 ==> number_written(prefixed_hex_text(value as nat).skip(2), 16) == value,
{
    reveal_strlit("-");
    reveal_strlit("0x");
    if value >= 0 {
        digits_write_numbers(value as nat, 10);
        digits_write_numbers(value as nat, 16);
        assert(prefixed_hex_text(value as nat).skip(2) =~= digits(value as nat, 16));
    } else {
        digits_write_numbers((-value) as nat, 10);
        assert(signed_text(value).skip(1) =~= decimal_text((-value) as nat));
    }
}

/// The two digits of a byte write it, the higher one first.
pub proof fn hex_digits_write_bytes(bytes: Seq<u8>, k: int)
    requires
        0 <= k < bytes.len(),
    ensures
        hex_text(bytes).len() == 2 * bytes.len(),
        16 * digit_value(hex_text(bytes)[2 * k]) + digit_value(hex_text(bytes)[2 * k + 1])
            == bytes[k],
    decreases bytes.len(),
{
    hex_text_length(bytes);
    let shorter = bytes.drop_last();
    hex_text_length(shorter);
    if k < bytes.len() - 1 {
        hex_digits_write_bytes(shorter, k);
        assert(shorter[k] == bytes[k]);
    } else {
        digits_count(bytes[k] as int / 16);
        digits_count(bytes[k] as int % 16);
    }
}

/// As many last digits as are asked for are written, and they write what is
/// left of the number behind the higher ones.
pub proof fn last_digits_write_remainders(value: nat, count: nat, scale: nat)
    requires
        scale == vstd::arithmetic::power::pow(10, count),
    ensures
        last_digits(value, count).len() == count,
        number_written(last_digits(value, count), 10) == value % scale,
    decreases count,
{
    let text = last_digits(value, count);
    let combine = |number: int, digit: char| 10 * number + digit_value(digit);
    reveal(vstd::arithmetic::power::pow);
    if count == 0 {
        assert(text =~= Seq::<char>::empty());
        assert(scale == 1);
    } else {
        let before = (count - 1) as nat;
        let smaller = vstd::arithmetic::power::pow(10, before);
        vstd::arithmetic::power::lemma_pow_positive(10, before);
        last_digits_write_remainders(value / 10, before, smaller as nat);
        digits_count((value % 10) as int);
        assert(text.drop_last() =~= last_digits(value / 10, before));
        vstd::arithmetic::div_mod::lemma_breakdown(value as int, 10, smaller);
        assert(10 * smaller == scale);
    }
}

} // verus!
