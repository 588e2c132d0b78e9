//! Decimal text of single-precision floating-point numbers.
//!
//! A number is shown by the shortest decimal that reads back as the number. It
//! is found with exact arithmetic, in multiples of the smallest positive number.

use crate::ieee::{
    finite_and_positive, gap, gaps_are_wide, gaps_lead_on, magnitude, units, INFINITY, SIGN,
};
use crate::message::{decimal, decimal_text, last_digits, padded_decimal};
use crate::natural::Natural;
use vstd::arithmetic::div_mod::*;
use vstd::arithmetic::power2::*;
use vstd::prelude::*;
use vstd::string::*;

verus! {

/// A power of ten.
pub open spec fn tens(count: nat) -> nat
    decreases count,
{
    if count == 0 {
        1
    } else {
        10 * tens((count - 1) as nat)
    }
}

/// What a decimal with an exponent counts, over `divisor`: a power of ten, as a
/// multiple of the smallest positive number, which is 2 to the -149th.
pub open spec fn step(exponent: int) -> nat {
    if exponent >= 0 {
        tens(exponent as nat) * pow2(149)
    } else {
        pow2(149)
    }
}

/// The power of ten that `step` leaves out.
pub open spec fn divisor(exponent: int) -> nat {
    if exponent >= 0 {
        1
    } else {
        tens((-exponent) as nat)
    }
}

/// A quotient is not less than half way from the number in front of a number to
/// it. Half way counts as the number with the even pattern.
pub open spec fn is_reached(dividend: nat, divisor: nat, size: int) -> bool {
    let half = (units(size - 1) + units(size)) * divisor;
    size <= 0 || half < 2 * dividend || (half == 2 * dividend && size % 2 == 0)
}

/// A quotient is rounded to the number with a pattern.
pub open spec fn rounds_to(dividend: nat, divisor: nat, size: int) -> bool {
    is_reached(dividend, divisor, size) && !is_reached(dividend, divisor, size + 1)
}

/// A decimal reads back as the number with a pattern.
pub open spec fn reads_as(digits: nat, exponent: int, size: int) -> bool {
    rounds_to(digits * step(exponent), divisor(exponent), size)
}

/// The digits of the largest decimal with an exponent that is not greater than
/// a number.
pub open spec fn digits_below(size: int, exponent: int) -> nat {
    (units(size) * divisor(exponent)) / step(exponent)
}

/// Some decimal with an exponent reads back as a number: the one below it or
/// the one above it.
pub open spec fn is_exact_enough(size: int, exponent: int) -> bool {
    let below = digits_below(size, exponent);
    reads_as(below, exponent, size) || reads_as(below + 1, exponent, size)
}

/// The largest exponent, from one on downwards, with which some decimal reads
/// back as a number.
pub open spec fn largest_exponent(size: int, exponent: int) -> int
    decreases exponent + 45,
{
    if exponent <= -45 || is_exact_enough(size, exponent) {
        exponent
    } else {
        largest_exponent(size, exponent - 1)
    }
}

/// The digits of the decimal with an exponent that shows a number: of the one
/// below it and the one above it the nearer one that reads back as the number,
/// and the one above it where both are as near.
pub open spec fn shown_digits(size: int, exponent: int) -> nat {
    let below = digits_below(size, exponent);
    let past_half = 2 * (units(size) * divisor(exponent)) >= (2 * below + 1) * step(exponent);
    if reads_as(below + 1, exponent, size) && (past_half || !reads_as(below, exponent, size)) {
        below + 1
    } else {
        below
    }
}

/// The text of digits with an exponent.
pub open spec fn plain_text(digits: nat, exponent: int) -> Seq<char> {
    if exponent >= 0 {
        decimal_text(digits) + last_digits(0, exponent as nat)
    } else {
        decimal_text(digits / tens((-exponent) as nat)) + "."@ + last_digits(
            digits,
            (-exponent) as nat,
        )
    }
}

/// The text of a number without its sign.
pub open spec fn size_text(size: int) -> Seq<char> {
    if size == INFINITY {
        "inf"@
    } else if size == 0 {
        "0"@
    } else {
        let exponent = largest_exponent(size, 38);
        plain_text(shown_digits(size, exponent), exponent)
    }
}

/// The text of a number.
pub open spec fn float_text(bits: u32) -> Seq<char> {
    if magnitude(bits) > INFINITY {
        "NaN"@
    } else if bits < SIGN {
        size_text(magnitude(bits))
    } else {
        "-"@ + size_text(magnitude(bits))
    }
}

proof fn tens_are_positive(count: nat)
    ensures
        tens(count) > 0,
    decreases count,
{
    if count > 0 {
        tens_are_positive((count - 1) as nat);
    }
}

proof fn steps_are_positive(exponent: int)
    ensures
        step(exponent) > 0,
        divisor(exponent) > 0,
{
    lemma_pow2_pos(149);
    if exponent >= 0 {
        tens_are_positive(exponent as nat);
        assert(tens(exponent as nat) * pow2(149) > 0) by (nonlinear_arith)
            requires
                tens(exponent as nat) > 0,
                pow2(149) > 0,
        ;
    } else {
        tens_are_positive((-exponent) as nat);
    }
}

/// With the next smaller exponent, there is ten times as much to count.
proof fn steps_shrink(size: int, exponent: int)
    ensures
        units(size) * divisor(exponent - 1) * step(exponent) == 10 * (units(size) * divisor(exponent))
            * step(exponent - 1),
        exponent > 0 ==> step(exponent) == 10 * step(exponent - 1) && divisor(exponent - 1)
            == divisor(exponent),
        exponent <= 0 ==> step(exponent - 1) == step(exponent) && divisor(exponent - 1) == 10
            * divisor(exponent),
{
    let value = units(size);
    let base = pow2(149);
    if exponent > 0 {
        let less = tens((exponent - 1) as nat);
        assert(tens(exponent as nat) == 10 * less);
        assert((10 * less) * base == 10 * (less * base)) by (nonlinear_arith);
        let small = step(exponent - 1);
        assert(value * 1 * (10 * small) == 10 * (value * 1) * small) by (nonlinear_arith);
    } else {
        let less = divisor(exponent);
        assert(divisor(exponent - 1) == 10 * less) by {
            if exponent == 0 {
                assert(tens(1) == 10 * tens(0));
            } else {
                assert(tens((1 - exponent) as nat) == 10 * tens((-exponent) as nat));
            }
        }
        if exponent == 0 {
            assert(tens(0) * base == base) by (nonlinear_arith)
                requires
                    tens(0) == 1,
            ;
        }
        assert(value * (10 * less) * base == 10 * (value * less) * base) by (nonlinear_arith);
    }
}

proof fn quotients_bound(dividend: nat, divisor: nat)
    requires
        divisor > 0,
    ensures
        (dividend / divisor) * divisor <= dividend < (dividend / divisor) * divisor + divisor,
{
    lemma_fundamental_div_mod(dividend as int, divisor as int);
    lemma_mod_bound(dividend as int, divisor as int);
    let quotient = dividend / divisor;
    assert(divisor * quotient == quotient * divisor) by (nonlinear_arith);
}

proof fn bounds_give_quotient(dividend: nat, divisor: nat, quotient: nat)
    requires
        quotient * divisor <= dividend < quotient * divisor + divisor,
    ensures
        dividend / divisor == quotient,
{
    lemma_fundamental_div_mod_converse(
        dividend as int,
        divisor as int,
        quotient as int,
        dividend - quotient * divisor,
    );
}

/// Where no decimal with an exponent reads back as a number, the one below it
/// has few digits.
proof fn inexact_digits_are_few(size: int, exponent: int)
    requires
        0 < size,
        !is_exact_enough(size, exponent),
    ensures
        digits_below(size, exponent) < 0x200_0000,
{
    let value = units(size);
    let before = units(size - 1);
    let behind = units(size + 1);
    let scale = divisor(exponent);
    let unit = step(exponent);
    let below = digits_below(size, exponent);
    steps_are_positive(exponent);
    gaps_lead_on(size - 1);
    gaps_lead_on(size);
    gaps_are_wide(size);
    quotients_bound(value * scale, unit);
    let lower = gap(size - 1);
    assert((value + behind) * scale > 2 * (value * scale)) by (nonlinear_arith)
        requires
            behind > value,
            scale > 0,
    ;
    assert(!is_reached(below * unit, scale, size + 1));
    assert((before + value) * scale >= 2 * (below * unit));
    assert((before + value) * scale == 2 * (value * scale) - lower * scale) by (nonlinear_arith)
        requires
            value == before + lower,
    ;
    assert(lower * scale < 2 * unit);
    assert(value * scale <= 0x100_0000 * (lower * scale)) by (nonlinear_arith)
        requires
            value <= 0x100_0000 * lower,
            scale > 0,
    ;
    assert(below < 0x200_0000) by (nonlinear_arith)
        requires
            below * unit < 0x200_0000 * unit,
            unit > 0,
    ;
}

/// With the next smaller exponent, the decimal below a number has one more digit.
proof fn digits_go_on(size: int, exponent: int)
    ensures
        10 * digits_below(size, exponent) <= digits_below(size, exponent - 1) < 10 * digits_below(
            size,
            exponent,
        ) + 10,
{
    let unit = step(exponent);
    let finer = step(exponent - 1);
    let count = units(size) * divisor(exponent);
    let finer_count = units(size) * divisor(exponent - 1);
    let below = digits_below(size, exponent);
    let longer = digits_below(size, exponent - 1);
    steps_are_positive(exponent);
    steps_are_positive(exponent - 1);
    steps_shrink(size, exponent);
    quotients_bound(count, unit);
    quotients_bound(finer_count, finer);
    if exponent > 0 {
        assert(count == finer_count);
        assert(below * (10 * finer) == (10 * below) * finer) by (nonlinear_arith);
    } else {
        let scale = divisor(exponent);
        let value = units(size);
        assert(value * (10 * scale) == 10 * (value * scale)) by (nonlinear_arith);
        assert(10 * (below * unit) == (10 * below) * unit) by (nonlinear_arith);
    }
    assert((10 * below) * finer <= finer_count < (10 * below) * finer + 10 * finer);
    assert(10 * below <= longer < 10 * below + 10) by (nonlinear_arith)
        requires
            (10 * below) * finer <= finer_count,
            finer_count < (10 * below) * finer + 10 * finer,
            longer * finer <= finer_count,
            finer_count < longer * finer + finer,
            finer > 0,
    ;
}

/// Powers of ten are larger than those of eight.
proof fn tens_are_large(count: nat)
    ensures
        tens(count) >= pow2(3 * count),
    decreases count,
{
    lemma2_to64();
    if count > 0 {
        tens_are_large((count - 1) as nat);
        lemma_pow2_adds((3 * (count - 1)) as nat, 3);
        assert(pow2(3) == 8);
        let before = pow2((3 * (count - 1)) as nat);
        assert(before * 8 <= 10 * tens((count - 1) as nat));
    }
}

/// A finite number is less than 2 to the 277th of the smallest one.
proof fn numbers_are_bounded(size: int)
    requires
        0 < size < INFINITY,
    ensures
        units(size) <= pow2(277),
{
    let exponent = size / 0x80_0000;
    let fraction = size % 0x80_0000;
    lemma2_to64();
    lemma_pow2_adds(24, 253);
    lemma_pow2_pos(253);
    if exponent > 0 {
        let part = pow2((exponent - 1) as nat);
        if exponent - 1 < 253 {
            lemma_pow2_strictly_increases((exponent - 1) as nat, 253);
        }
        assert((0x80_0000 + fraction) * part <= 0x100_0000 * pow2(253)) by (nonlinear_arith)
            requires
                0 <= fraction < 0x80_0000,
                part <= pow2(253),
        ;
        assert(pow2(24) == 0x100_0000);
        assert(0 <= (0x80_0000 + fraction) * part) by (nonlinear_arith)
            requires
                0 <= fraction,
        ;
    } else {
        assert(0x100_0000 * pow2(253) >= 0x100_0000) by (nonlinear_arith)
            requires
                pow2(253) >= 1,
        ;
    }
}

/// The first decimal that is tried has few digits.
proof fn first_digits_are_few(size: int)
    requires
        0 < size < INFINITY,
    ensures
        digits_below(size, 38) < 0x8000_0000,
{
    let value = units(size);
    let unit = step(38);
    steps_are_positive(38);
    quotients_bound(value * divisor(38), unit);
    lemma2_to64();
    let exponent = size / 0x80_0000;
    let fraction = size % 0x80_0000;
    numbers_are_bounded(size);
    tens_are_large(38);
    assert(unit >= pow2(263)) by {
        lemma_pow2_adds(114, 149);
        assert(tens(38) * pow2(149) >= pow2(114) * pow2(149)) by (nonlinear_arith)
            requires
                tens(38) >= pow2(114),
        ;
    }
    lemma_pow2_adds(14, 263);
    lemma_pow2_pos(263);
    assert(pow2(14) == 0x4000);
    let below = digits_below(size, 38);
    assert(below * unit <= value * 1);
    assert(below <= 0x4000) by (nonlinear_arith)
        requires
            below * unit <= value,
            value <= 0x4000 * pow2(263),
            unit >= pow2(263),
            pow2(263) > 0,
    {
        if below > 0x4000 {
            assert(below * unit >= (0x4000 + 1) * unit);
            assert(0x4000 * unit >= 0x4000 * pow2(263));
        }
    }
}

/// Counts a number in multiples of the smallest positive number.
fn count_units(size: u32) -> (count: Natural)
    ensures
        count@ == units(size as int),
{
    let exponent: u32 = size / 0x80_0000;
    let fraction: u32 = size % 0x80_0000;
    if exponent == 0 {
        Natural::new(fraction as u64)
    } else {
        Natural::new(0x80_0000 + fraction as u64).doubled(exponent - 1)
    }
}

/// Multiplies a number with a power of ten.
fn times_tens(number: &Natural, count: u32) -> (product: Natural)
    ensures
        product@ == number@ * tens(count as nat),
{
    let mut product: Natural = number.times(1);
    let mut done: u32 = 0;
    while done < count
        invariant
            done <= count,
            product@ == number@ * tens(done as nat),
        decreases count - done,
    {
        product = product.times(10);
        proof {
            assert(number@ * tens(done as nat) * 10 == number@ * (10 * tens(done as nat)))
                by (nonlinear_arith);
        }
        done = done + 1;
    }
    product
}

/// What a decimal with an exponent is compared with.
struct Scale {
    /// The step of the exponent.
    unit: Natural,
    /// The number.
    value: Natural,
    /// Twice the way half way to the number.
    low: Natural,
    /// Twice the way half way from the number.
    high: Natural,
}

impl Scale {
    /// The numbers are those of a number and an exponent.
    spec fn is_of(self, size: int, exponent: int) -> bool {
        &&& self.unit@ == step(exponent)
        &&& self.value@ == units(size) * divisor(exponent)
        &&& self.low@ == (units(size - 1) + units(size)) * divisor(exponent)
        &&& self.high@ == (units(size) + units(size + 1)) * divisor(exponent)
    }

    /// Computes what a decimal with an exponent is compared with.
    fn new(size: u32, exponent: i32) -> (scale: Scale)
        requires
            0 < size < INFINITY,
            -0x100 <= exponent <= 0x100,
        ensures
            scale.is_of(size as int, exponent as int),
    {
        let before: Natural = count_units(size - 1);
        let value: Natural = count_units(size);
        let behind: Natural = count_units(size + 1);
        let low: Natural = before.plus(&value);
        let high: Natural = value.plus(&behind);
        let base: Natural = Natural::new(1).doubled(149);
        if exponent >= 0 {
            let unit: Natural = times_tens(&base, exponent as u32);
            proof {
                assert(pow2(149) * tens(exponent as nat) == tens(exponent as nat) * pow2(149))
                    by (nonlinear_arith);
            }
            Scale { unit, value, low, high }
        } else {
            let count: u32 = (-exponent) as u32;
            Scale {
                unit: base,
                value: times_tens(&value, count),
                low: times_tens(&low, count),
                high: times_tens(&high, count),
            }
        }
    }

    /// Tells whether a decimal reads back as the number.
    fn reads(&self, digits: u32, even: bool, Ghost(size): Ghost<int>, Ghost(exponent): Ghost<int>) -> (
    answer: bool)
        requires
            self.is_of(size, exponent),
            0 < size,
            even == (size % 2 == 0),
        ensures
            answer == reads_as(digits as nat, exponent, size),
    {
        let twice: Natural = self.unit.times(digits).times(2);
        proof {
            let unit = step(exponent);
            assert(unit * digits * 2 == 2 * (digits * unit)) by (nonlinear_arith);
        }
        if even {
            !twice.is_less(&self.low) && !self.high.is_less(&twice)
        } else {
            self.low.is_less(&twice) && twice.is_less(&self.high)
        }
    }

    /// Finds the digits of the decimal below the number, from a few digits on.
    fn find_digits(&self, from: u32, Ghost(size): Ghost<int>, Ghost(exponent): Ghost<int>) -> (digits:
        u32)
        requires
            self.is_of(size, exponent),
            from <= digits_below(size, exponent) < 0x8000_0000,
        ensures
            digits == digits_below(size, exponent),
    {
        let mut digits: u32 = from;
        proof {
            steps_are_positive(exponent);
            quotients_bound(self.value@, self.unit@);
            assert(from * self.unit@ <= digits_below(size, exponent) * self.unit@)
                by (nonlinear_arith)
                requires
                    from <= digits_below(size, exponent),
            ;
        }
        while !self.value.is_less(&self.unit.times(digits + 1))
            invariant
                self.is_of(size, exponent),
                self.unit@ > 0,
                digits <= digits_below(size, exponent) < 0x8000_0000,
                digits * self.unit@ <= self.value@,
                self.value@ < digits_below(size, exponent) * self.unit@ + self.unit@,
            decreases digits_below(size, exponent) - digits,
        {
            proof {
                let unit = self.unit@;
                let most = digits_below(size, exponent);
                assert(unit * (digits + 1) == digits * unit + unit) by (nonlinear_arith);
                assert((digits + 1) * unit == digits * unit + unit) by (nonlinear_arith);
                assert(digits < most) by (nonlinear_arith)
                    requires
                        digits * unit + unit <= self.value@,
                        self.value@ < most * unit + unit,
                ;
            }
            digits = digits + 1;
        }
        proof {
            let unit = self.unit@;
            assert(unit * (digits + 1) == digits * unit + unit) by (nonlinear_arith);
            bounds_give_quotient(self.value@, unit, digits as nat);
        }
        digits
    }
}

/// Finds the shortest decimal that reads back as a number: its digits and its
/// exponent.
fn find_decimal(size: u32) -> (found: (u32, i32))
    requires
        0 < size < INFINITY,
    ensures
        found.1 == largest_exponent(size as int, 38),
        found.0 == shown_digits(size as int, found.1 as int),
        -45 <= found.1 <= 38,
{
    let mut exponent: i32 = 38;
    let mut from: u32 = 0;
    let even: bool = size % 2 == 0;
    proof {
        first_digits_are_few(size as int);
    }
    loop
        invariant
            0 < size < INFINITY,
            even == (size % 2 == 0),
            -45 <= exponent <= 38,
            from <= digits_below(size as int, exponent as int) < 0x8000_0000,
            largest_exponent(size as int, 38) == largest_exponent(size as int, exponent as int),
        decreases exponent + 45,
    {
        let scale: Scale = Scale::new(size, exponent);
        let below: u32 = scale.find_digits(from, Ghost(size as int), Ghost(exponent as int));
        let reads_below: bool = scale.reads(
            below,
            even,
            Ghost(size as int),
            Ghost(exponent as int),
        );
        let reads_above: bool = scale.reads(
            below + 1,
            even,
            Ghost(size as int),
            Ghost(exponent as int),
        );
        if exponent == -45 || reads_below || reads_above {
            let half: Natural = scale.unit.times(2 * below + 1);
            let past_half: bool = !scale.value.times(2).is_less(&half);
            proof {
                let unit = step(exponent as int);
                assert(unit * (2 * below + 1) == (2 * below + 1) * unit) by (nonlinear_arith);
            }
            if reads_above && (past_half || !reads_below) {
                return (below + 1, exponent);
            }
            return (below, exponent);
        }
        proof {
            inexact_digits_are_few(size as int, exponent as int);
            digits_go_on(size as int, exponent as int);
        }
        from = 10 * below;
        exponent = exponent - 1;
    }
}

/// Divides a number by a power of ten.
fn without_last_digits(value: u64, count: u32) -> (quotient: u64)
    ensures
        quotient == value as nat / tens(count as nat),
    decreases count,
{
    if count == 0 {
        proof {
            assert(value as nat / 1 == value);
        }
        value
    } else {
        proof {
            tens_are_positive((count - 1) as nat);
            lemma_div_denominator(value as int, 10, tens((count - 1) as nat) as int);
        }
        without_last_digits(value / 10, count - 1)
    }
}

/// Writes digits with an exponent.
fn show_decimal(digits: u32, exponent: i32) -> (text: String)
    requires
        -0x100 <= exponent <= 0x100,
    ensures
        text@ == plain_text(digits as nat, exponent as int),
{
    if exponent >= 0 {
        decimal(digits as u64).concat(padded_decimal(0, exponent as u32).as_str())
    } else {
        let count: u32 = (-exponent) as u32;
        decimal(without_last_digits(digits as u64, count)).concat(".").concat(
            padded_decimal(digits as u64, count).as_str(),
        )
    }
}

/// Writes a number without its sign.
fn show_size(size: u32) -> (text: String)
    requires
        size <= INFINITY,
    ensures
        text@ == size_text(size as int),
{
    if size == INFINITY {
        String::from_str("inf")
    } else if size == 0 {
        String::from_str("0")
    } else {
        let (digits, exponent): (u32, i32) = find_decimal(size);
        show_decimal(digits, exponent)
    }
}

/// Writes a number.
pub fn show_float(bits: u32) -> (text: String)
    ensures
        text@ == float_text(bits),
{
    if bits < SIGN {
        if bits > INFINITY {
            String::from_str("NaN")
        } else {
            show_size(bits)
        }
    } else if bits - SIGN > INFINITY {
        String::from_str("NaN")
    } else {
        String::from_str("-").concat(show_size(bits - SIGN).as_str())
    }
}

/// With the smallest exponent, decimals are nearer to each other than numbers.
proof fn smallest_exponent_is_exact(size: int)
    requires
        0 < size,
    ensures
        is_exact_enough(size, -45),
{
    let value = units(size);
    let before = units(size - 1);
    let behind = units(size + 1);
    let scale = divisor(-45);
    let unit = step(-45);
    let below = digits_below(size, -45);
    steps_are_positive(-45);
    gaps_lead_on(size - 1);
    gaps_lead_on(size);
    quotients_bound(value * scale, unit);
    assert(scale > unit) by {
        reveal_with_fuel(tens, 46);
        lemma2_to64();
        lemma_pow2_adds(64, 64);
        lemma_pow2_adds(128, 21);
    }
    assert((before + value) * scale <= 2 * (value * scale) - scale) by (nonlinear_arith)
        requires
            before + 1 <= value,
            scale > 0,
    ;
    assert((value + behind) * scale >= 2 * (value * scale) + scale) by (nonlinear_arith)
        requires
            value + 1 <= behind,
            scale > 0,
    ;
    assert((below + 1) * unit == below * unit + unit) by (nonlinear_arith);
    if !reads_as(below, -45, size) {
        assert(!is_reached(below * unit, scale, size + 1));
        assert((before + value) * scale >= 2 * (below * unit));
        assert(reads_as(below + 1, -45, size));
    }
}

proof fn largest_exponents_are_exact(size: int, exponent: int)
    requires
        0 < size,
        -45 <= exponent,
    ensures
        is_exact_enough(size, largest_exponent(size, exponent)),
    decreases exponent + 45,
{
    if exponent == -45 {
        smallest_exponent_is_exact(size);
    } else if !is_exact_enough(size, exponent) {
        largest_exponents_are_exact(size, exponent - 1);
    }
}

/// The decimal that shows a number reads back as the number.
pub proof fn shown_numbers_read_back(size: int)
    requires
        0 < size < INFINITY,
    ensures
        ({
            let exponent = largest_exponent(size, 38);
            reads_as(shown_digits(size, exponent), exponent, size)
        }),
{
    largest_exponents_are_exact(size, 38);
}

/// The number that a quotient is rounded to, at most the one with the given
/// pattern.
pub open spec fn nearest(dividend: nat, divisor: nat, most: int) -> int
    decreases most,
{
    if most <= 0 {
        0
    } else if is_reached(dividend, divisor, most) {
        most
    } else {
        nearest(dividend, divisor, most - 1)
    }
}

/// Where a number is reached, so is the one in front of it.
proof fn reaching_goes_up(dividend: nat, divisor: nat, size: int)
    requires
        0 < size,
        divisor > 0,
        is_reached(dividend, divisor, size),
    ensures
        is_reached(dividend, divisor, size - 1),
{
    if size > 1 {
        gaps_lead_on(size - 1);
        gaps_lead_on(size - 2);
        let first = units(size - 2);
        let second = units(size - 1);
        let third = units(size);
        assert((first + second) * divisor < (second + third) * divisor) by (nonlinear_arith)
            requires
                first < second < third,
                divisor > 0,
        ;
    }
}

proof fn nearest_is_reached_last(dividend: nat, divisor: nat, size: int, most: int)
    requires
        0 <= size < most,
        divisor > 0,
        is_reached(dividend, divisor, size),
        !is_reached(dividend, divisor, size + 1),
    ensures
        nearest(dividend, divisor, most) == size,
        !is_reached(dividend, divisor, most),
    decreases most - size,
{
    if size + 1 < most {
        nearest_is_reached_last(dividend, divisor, size, most - 1);
        if is_reached(dividend, divisor, most) {
            reaching_goes_up(dividend, divisor, most);
        }
    } else {
        assert(nearest(dividend, divisor, size) == size);
    }
}

/// Tells whether the quotient of a small number and the number with a pattern
/// reaches a number.
fn check_reached(value: u32, by: u32, size: u32) -> (answer: bool)
    requires
        0 < size <= INFINITY,
    ensures
        answer == is_reached(value as nat * pow2(298), units(by as int), size as int),
{
    let twice: Natural = Natural::new(value as u64).doubled(299);
    let sum: Natural = count_units(size - 1).plus(&count_units(size));
    let exponent: u32 = by / 0x80_0000;
    let fraction: u32 = by % 0x80_0000;
    let half: Natural = if exponent == 0 {
        sum.times(fraction)
    } else {
        sum.times(0x80_0000 + fraction).doubled(exponent - 1)
    };
    proof {
        lemma_pow2_unfold(299);
        assert(value * (2 * pow2(298)) == 2 * (value * pow2(298))) by (nonlinear_arith);
        if exponent > 0 {
            let part = 0x80_0000 + fraction;
            let power = pow2((exponent - 1) as nat);
            let total = sum@;
            assert(total * part * power == total * (part * power)) by (nonlinear_arith);
            assert(0 <= part * power) by (nonlinear_arith)
                requires
                    0 <= part,
                    0 <= power,
            ;
            assert(units(by as int) == part * power);
        }
    }
    if size % 2 == 0 {
        !twice.is_less(&half)
    } else {
        half.is_less(&twice)
    }
}

/// Rounds the quotient of a small number and the number with a pattern.
fn round_quotient(value: u32, by: u32) -> (size: u32)
    requires
        0 < by < INFINITY,
    ensures
        size == nearest(value as nat * pow2(298), units(by as int), INFINITY as int),
        size <= INFINITY,
{
    if check_reached(value, by, INFINITY) {
        return INFINITY;
    }
    let mut low: u32 = 0;
    let mut high: u32 = INFINITY;
    let ghost dividend = value as nat * pow2(298);
    let ghost divisor = units(by as int);
    while high - low > 1
        invariant
            0 < by < INFINITY,
            low < high <= INFINITY,
            dividend == value as nat * pow2(298),
            divisor == units(by as int),
            is_reached(dividend, divisor, low as int),
            !is_reached(dividend, divisor, high as int),
        decreases high - low,
    {
        let middle: u32 = low + (high - low) / 2;
        if check_reached(value, by, middle) {
            low = middle;
        } else {
            high = middle;
        }
    }
    proof {
        gaps_lead_on(by - 1);
        nearest_is_reached_last(dividend, divisor, low as int, INFINITY as int);
    }
    low
}

/// The pattern of a number that is not a number.
pub const NOT_A_NUMBER: u32 = 0x7fc0_0000;

/// The quotient of a small integer and a number without its sign, without its
/// sign and rounded to the nearest number.
pub open spec fn quotient_size(value: nat, by: int) -> int {
    if by > INFINITY || (by == 0 && value == 0) {
        NOT_A_NUMBER as int
    } else if by == INFINITY {
        0
    } else if by == 0 {
        INFINITY as int
    } else {
        nearest(value * pow2(298), units(by), INFINITY as int)
    }
}

/// The quotient of a small integer and a number, rounded to the nearest number.
pub open spec fn quotient_of(value: i8, multiplier: u32) -> u32 {
    let size = quotient_size(
        if value < 0 {
            (-value) as nat
        } else {
            value as nat
        },
        magnitude(multiplier),
    );
    if (value < 0) == (multiplier >= SIGN) {
        size as u32
    } else {
        (SIGN + size) as u32
    }
}

/// Divides a small integer by a number.
pub fn divide(value: i8, multiplier: u32) -> (quotient: u32)
    ensures
        quotient == quotient_of(value, multiplier),
{
    let count: u32 = if value < 0 {
        (-(value as i32)) as u32
    } else {
        value as u32
    };
    let by: u32 = if multiplier < SIGN {
        multiplier
    } else {
        multiplier - SIGN
    };
    let size: u32 = if by > INFINITY || (by == 0 && count == 0) {
        NOT_A_NUMBER
    } else if by == INFINITY {
        0
    } else if by == 0 {
        INFINITY
    } else {
        round_quotient(count, by)
    };
    if (value < 0) == (multiplier >= SIGN) {
        size
    } else {
        SIGN + size
    }
}

proof fn nearest_is_bounded(dividend: nat, divisor: nat, most: int)
    requires
        0 <= most,
    ensures
        0 <= nearest(dividend, divisor, most) <= most,
        most > 0 && is_reached(dividend, divisor, 1) ==> nearest(dividend, divisor, most) > 0,
        dividend == 0 && divisor > 0 ==> nearest(dividend, divisor, most) == 0,
    decreases most,
{
    if most > 0 {
        nearest_is_bounded(dividend, divisor, most - 1);
        if dividend == 0 && divisor > 0 {
            gaps_lead_on(most - 1);
            let sum = units(most - 1) + units(most);
            assert(sum * divisor > 0) by (nonlinear_arith)
                requires
                    sum > 0,
                    divisor > 0,
            ;
        }
    }
}

/// A quotient passes the largest finite number.
proof fn infinity_is_reached(value: nat, divisor: nat)
    ensures
        is_reached(value * pow2(298), divisor, INFINITY as int) <==> 0x1ff_ffff * divisor <= value
            * 0x4000_0000_0000,
{
    let sum = units(INFINITY - 1) + units(INFINITY as int);
    let power = pow2(253);
    lemma2_to64();
    lemma_pow2_pos(253);
    lemma_pow2_unfold(254);
    lemma_pow2_adds(253, 45);
    lemma_pow2_adds(32, 13);
    assert(pow2(45) == 0x2000_0000_0000);
    assert((INFINITY - 1) / 0x80_0000 == 254);
    assert((INFINITY - 1) % 0x80_0000 == 0x7f_ffff);
    assert(units(INFINITY - 1) == 0xff_ffff * power);
    assert(units(INFINITY as int) == 0x80_0000 * pow2(254));
    assert(sum == 0x1ff_ffff * power);
    let half = sum * divisor;
    let dividend = value * pow2(298);
    assert((0x1ff_ffff * power) * divisor == (0x1ff_ffff * divisor) * power) by (nonlinear_arith);
    assert(2 * (value * (power * 0x2000_0000_0000)) == (value * 0x4000_0000_0000) * power)
        by (nonlinear_arith);
    let left = 0x1ff_ffff * divisor;
    let right = value * 0x4000_0000_0000;
    assert(left * power <= right * power <==> left <= right) by (nonlinear_arith)
        requires
            power > 0,
    ;
}

/// The signs of a value and a multiplier agree, the multiplier is finite and not
/// zero, and their quotient is nearer to the largest finite number than to what
/// would follow it.
spec fn ratio_is_positive(value: i8, multiplier: u32) -> bool {
    let size = if value < 0 {
        -value
    } else {
        value as int
    };
    &&& (value > 0 && multiplier < SIGN) || (value < 0 && multiplier >= SIGN)
    &&& 0 < magnitude(multiplier) < INFINITY
    &&& size * 0x4000_0000_0000 < 0x1ff_ffff * units(magnitude(multiplier))
}

/// A quotient is finite and greater than zero exactly under these conditions.
proof fn quotients_are_positive(value: i8, multiplier: u32)
    ensures
        ratio_is_positive(value, multiplier) == finite_and_positive(quotient_of(value, multiplier)),
{
    let size = if value < 0 {
        (-value) as nat
    } else {
        value as nat
    };
    let by = magnitude(multiplier);
    if 0 < by < INFINITY {
        let scale = units(by);
        let dividend = size * pow2(298);
        gaps_lead_on(by - 1);
        nearest_is_bounded(dividend, scale, INFINITY as int);
        nearest_is_bounded(dividend, scale, INFINITY - 1);
        infinity_is_reached(size, scale);
        if size > 0 {
            numbers_are_bounded(by);
            lemma_pow2_strictly_increases(277, 298);
            assert(dividend >= pow2(298)) by (nonlinear_arith)
                requires
                    dividend == size * pow2(298),
                    size >= 1,
            ;
            assert(units(0) == 0);
            assert(units(1) == 1);
            assert((units(0) + units(1)) * scale == scale) by (nonlinear_arith)
                requires
                    units(0) + units(1) == 1,
            ;
            assert(is_reached(dividend, scale, 1));
        } else {
            assert(dividend == 0);
        }
    }
}

/// Tells whether a quotient is finite and greater than zero.
pub fn is_positive_quotient(value: i8, multiplier: u32) -> (answer: bool)
    ensures
        answer == finite_and_positive(quotient_of(value, multiplier)),
{
    proof {
        quotients_are_positive(value, multiplier);
    }
    let (size, bits) = if value > 0 && multiplier < SIGN {
        (value as u64, multiplier)
    } else if value < 0 && multiplier >= SIGN {
        ((-(value as i64)) as u64, multiplier - SIGN)
    } else {
        return false;
    };
    if bits == 0 || bits >= INFINITY {
        return false;
    }
    let exponent: u32 = bits / 0x80_0000;
    let fraction: u32 = bits % 0x80_0000;
    proof {
        assert(magnitude(multiplier) == bits);
        lemma2_to64();
    }
    if exponent == 0 {
        return size * 0x4000_0000_0000 < 0x1ff_ffff * (fraction as u64);
    }
    let mut unit: u64 = 0x80_0000 + fraction as u64;
    let mut left: u32 = exponent - 1;
    proof {
        assert(pow2(0) == 1);
        assert(unit * pow2(left as nat) == (0x80_0000 + fraction)
            * pow2((exponent - 1) as nat));
    }
    while left > 0 && unit < 0x4000_0000
        invariant
            0x80_0000 <= unit < 0x8000_0000,
            left <= exponent - 1,
            exponent >= 1,
            unit * pow2(left as nat) == (0x80_0000 + fraction)
                * pow2((exponent - 1) as nat),
        decreases left,
    {
        proof {
            lemma_pow2_unfold(left as nat);
            assert(unit * (2 * pow2((left - 1) as nat)) == (2 * unit)
                * pow2((left - 1) as nat)) by (nonlinear_arith);
        }
        unit = 2 * unit;
        left = left - 1;
    }
    proof {
        lemma_pow2_pos(left as nat);
        if left > 0 {
            assert(unit * pow2(left as nat) >= unit) by (nonlinear_arith)
                requires
                    pow2(left as nat) >= 1,
            ;
            assert(0x1ff_ffff * (unit * pow2(left as nat)) >= 0x1ff_ffff
                * unit);
        } else {
            assert(unit * pow2(0) == unit) by (nonlinear_arith)
                requires
                    pow2(0) == 1,
            ;
        }
    }
    size * 0x4000_0000_0000 < 0x1ff_ffff * unit
}

proof fn nearest_numbers_are_reached(dividend: nat, divisor: nat, most: int)
    requires
        0 <= most,
    ensures
        ({
            let size = nearest(dividend, divisor, most);
            &&& 0 <= size <= most
            &&& is_reached(dividend, divisor, size)
            &&& size < most ==> !is_reached(dividend, divisor, size + 1)
        }),
    decreases most,
{
    if most > 0 && !is_reached(dividend, divisor, most) {
        nearest_numbers_are_reached(dividend, divisor, most - 1);
    }
}

/// A quotient is rounded to the nearest number: twice the dividend lies between
/// the sums of that number and its neighbours, times the divisor. Numbers count
/// in multiples of the smallest positive one, 2 to the -149th, so that a small
/// integer over a number counts 2 to the 298th times the integer over the
/// number's count. The quotient is negative where one of the two is.
pub proof fn quotients_are_nearest(value: i8, multiplier: u32)
    requires
        0 < magnitude(multiplier) < INFINITY,
    ensures
        ({
            let size = magnitude(quotient_of(value, multiplier));
            let scale = units(magnitude(multiplier));
            let dividend = pow2(298) * if value < 0 {
                -value
            } else {
                value as int
            };
            &&& 0 <= size <= INFINITY
            &&& size > 0 ==> (units(size - 1) + units(size)) * scale <= 2 * dividend
            &&& size < INFINITY ==> 2 * dividend <= (units(size) + units(size + 1)) * scale
        }),
        quotient_of(value, multiplier) >= SIGN <==> (value < 0) != (multiplier >= SIGN),
{
    let count = if value < 0 {
        (-value) as nat
    } else {
        value as nat
    };
    let scale = units(magnitude(multiplier));
    nearest_numbers_are_reached(count * pow2(298), scale, INFINITY as int);
    assert(count * pow2(298) == pow2(298) * count) by (nonlinear_arith);
}

/// A negative number is shown as the positive one with a minus sign in front;
/// zero and infinity are shown by name.
pub proof fn signs_are_shown(bits: u32)
    requires
        bits <= INFINITY,
    ensures
        float_text((SIGN + bits) as u32) == "-"@ + float_text(bits),
        float_text(0) == "0"@,
        float_text(INFINITY) == "inf"@,
{
}

} // verus!
