//! Single-precision floating-point numbers as their 32-bit patterns.
//!
//! The highest bit is the sign, the next eight are the exponent and the rest
//! is the fraction. Exponent 255 marks infinities (fraction zero) and NaNs.

use vstd::arithmetic::power2::*;
use vstd::prelude::*;

verus! {

/// Pattern of positive infinity; what lies between it and the sign bit is NaN.
pub const INFINITY: u32 = 0x7f80_0000;

/// The sign bit.
pub const SIGN: u32 = 0x8000_0000;

/// The pattern without its sign.
pub open spec fn magnitude(bits: u32) -> int {
    if bits < SIGN {
        bits as int
    } else {
        bits - SIGN
    }
}

/// The number with a pattern without sign, as a multiple of the smallest
/// positive number. For infinity it is what would follow the largest finite
/// number.
pub open spec fn units(size: int) -> nat {
    let exponent = size / 0x80_0000;
    let fraction = size % 0x80_0000;
    if exponent == 0 {
        fraction as nat
    } else {
        ((0x80_0000 + fraction) * pow2((exponent - 1) as nat)) as nat
    }
}

/// How far a number is from the one behind it.
pub open spec fn gap(size: int) -> nat {
    let exponent = size / 0x80_0000;
    if exponent == 0 {
        1
    } else {
        pow2((exponent - 1) as nat)
    }
}

proof fn products_are_natural(factor: int, count: nat)
    requires
        0 <= factor,
    ensures
        0 <= factor * pow2(count),
{
    assert(0 <= factor * pow2(count)) by (nonlinear_arith)
        requires
            0 <= factor,
            0 <= pow2(count),
    ;
}

/// A number and its gap make up the number behind it.
pub proof fn gaps_lead_on(size: int)
    requires
        0 <= size,
    ensures
        units(size + 1) == units(size) + gap(size),
        gap(size) > 0,
{
    let exponent = size / 0x80_0000;
    let fraction = size % 0x80_0000;
    lemma2_to64();
    if exponent > 0 {
        lemma_pow2_pos((exponent - 1) as nat);
        let step = pow2((exponent - 1) as nat);
        products_are_natural(0x80_0000 + fraction, (exponent - 1) as nat);
        if fraction + 1 < 0x80_0000 {
            products_are_natural(0x80_0000 + fraction + 1, (exponent - 1) as nat);
            assert((size + 1) / 0x80_0000 == exponent);
            assert((size + 1) % 0x80_0000 == fraction + 1);
            assert((0x80_0000 + fraction + 1) * step == (0x80_0000 + fraction) * step + step)
                by (nonlinear_arith);
            assert(units(size + 1) == (0x80_0000 + (fraction + 1)) * step);
            assert(units(size) == (0x80_0000 + fraction) * step);
        } else {
            assert((size + 1) / 0x80_0000 == exponent + 1);
            assert((size + 1) % 0x80_0000 == 0);
            lemma_pow2_unfold(exponent as nat);
            products_are_natural(0x80_0000, exponent as nat);
            assert(0x80_0000 * (2 * step) == 0xff_ffff * step + step) by (nonlinear_arith);
            assert(units(size + 1) == (0x80_0000 + 0) * pow2(exponent as nat));
            assert(units(size) == 0xff_ffff * step);
        }
    } else if fraction + 1 == 0x80_0000 {
        assert(size + 1 == 0x80_0000);
        assert((size + 1) / 0x80_0000 == 1);
        assert((size + 1) % 0x80_0000 == 0);
        assert(pow2(0) == 1);
        assert(0x80_0000 * pow2(0) == 0x80_0000);
    } else {
        assert((size + 1) / 0x80_0000 == 0);
        assert((size + 1) % 0x80_0000 == fraction + 1);
    }
}

/// A number is at most 2 to the 24th times as large as the gap in front of it.
pub proof fn gaps_are_wide(size: int)
    requires
        0 < size,
    ensures
        units(size) <= 0x100_0000 * gap(size - 1),
{
    let exponent = size / 0x80_0000;
    let fraction = size % 0x80_0000;
    let before = (size - 1) / 0x80_0000;
    lemma2_to64();
    if exponent > 0 {
        let step = pow2((exponent - 1) as nat);
        products_are_natural(0x80_0000 + fraction, (exponent - 1) as nat);
        if fraction > 0 {
            assert(before == exponent);
            assert((0x80_0000 + fraction) * step <= 0x100_0000 * step) by (nonlinear_arith)
                requires
                    fraction <= 0x80_0000,
                    step >= 0,
            ;
        } else {
            assert(before == exponent - 1);
            if before > 0 {
                lemma_pow2_unfold((exponent - 1) as nat);
                assert(step == 2 * gap(size - 1));
            } else {
                assert(step == 1);
                assert(0x80_0000 * step == 0x80_0000);
            }
            assert(units(size) == 0x80_0000 * step);
        }
    } else {
        assert(before == 0);
    }
}

/// The number is neither infinite nor NaN.
pub open spec fn finite(bits: u32) -> bool {
    magnitude(bits) < INFINITY
}

/// The number is finite and greater than zero.
pub open spec fn finite_and_positive(bits: u32) -> bool {
    0 < bits < INFINITY
}

/// Tells whether a number is finite.
pub fn is_finite(bits: u32) -> (answer: bool)
    ensures
        answer == finite(bits),
{
    if bits < SIGN {
        bits < INFINITY
    } else {
        bits - SIGN < INFINITY
    }
}

/// Tells whether a number is finite and greater than zero.
pub fn is_finite_and_positive(bits: u32) -> (answer: bool)
    ensures
        answer == finite_and_positive(bits),
{
    0 < bits && bits < INFINITY
}

/// The pattern is a NaN.
pub open spec fn nan(bits: u32) -> bool {
    magnitude(bits) > INFINITY
}

/// Where a number that is not NaN stands on the number line. Both zeros stand
/// at zero.
pub open spec fn value_rank(bits: u32) -> int {
    if bits < SIGN {
        bits as int
    } else {
        -(bits - SIGN)
    }
}

/// Where a pattern stands in the total order of IEEE 754: negative NaNs, then
/// negative numbers, negative zero, positive zero, positive numbers, positive
/// NaNs.
pub open spec fn total_rank(bits: u32) -> int {
    if bits < SIGN {
        bits as int
    } else {
        -(bits - SIGN) - 1
    }
}

/// The left number is greater than the right one; false where either is NaN.
pub open spec fn greater(left: u32, right: u32) -> bool {
    !nan(left) && !nan(right) && value_rank(left) > value_rank(right)
}

/// Only equal patterns stand at the same place of the total order.
pub proof fn total_ranks_differ(left: u32, right: u32)
    ensures
        total_rank(left) == total_rank(right) <==> left == right,
{
}

/// The total order agrees with the order of numbers.
pub proof fn total_order_extends_order(left: u32, right: u32)
    requires
        greater(left, right),
    ensures
        total_rank(left) > total_rank(right),
{
}

/// The place of a pattern in the total order.
pub fn rank_of(bits: u32) -> (rank: i64)
    ensures
        rank == total_rank(bits),
{
    if bits < SIGN {
        bits as i64
    } else {
        -((bits - SIGN) as i64) - 1
    }
}

/// Tells whether the left number is greater than the right one.
pub fn is_greater(left: u32, right: u32) -> (answer: bool)
    ensures
        answer == greater(left, right),
{
    let left_size: u32 = if left < SIGN {
        left
    } else {
        left - SIGN
    };
    let right_size: u32 = if right < SIGN {
        right
    } else {
        right - SIGN
    };
    if left_size > INFINITY || right_size > INFINITY {
        return false;
    }
    if left < SIGN {
        if right < SIGN {
            left_size > right_size
        } else {
            left_size > 0 || right_size > 0
        }
    } else {
        right >= SIGN && right_size > left_size
    }
}

proof fn larger_patterns_are_larger(left: int, right: int)
    requires
        0 <= left < right,
    ensures
        units(left) < units(right),
    decreases right - left,
{
    gaps_lead_on(right - 1);
    if left < right - 1 {
        larger_patterns_are_larger(left, right - 1);
    }
}

/// Of two finite numbers one is greater exactly where its value is: the value is
/// a multiple of the smallest positive number, negative where the sign bit is
/// set. So both zeros are equal.
pub proof fn comparisons_follow_values(left: u32, right: u32)
    requires
        left % 0x8000_0000 < 0x7f80_0000,
        right % 0x8000_0000 < 0x7f80_0000,
    ensures
        greater(left, right) <==> {
            let left_value = if left < 0x8000_0000 {
                units(left as int) as int
            } else {
                -units(left - 0x8000_0000)
            };
            let right_value = if right < 0x8000_0000 {
                units(right as int) as int
            } else {
                -units(right - 0x8000_0000)
            };
            left_value > right_value
        },
{
    let left_size = (left % 0x8000_0000) as int;
    let right_size = (right % 0x8000_0000) as int;
    assert(units(0) == 0);
    if left_size < right_size {
        larger_patterns_are_larger(left_size, right_size);
    } else if right_size < left_size {
        larger_patterns_are_larger(right_size, left_size);
    }
    if left_size > 0 {
        larger_patterns_are_larger(0, left_size);
    }
    if right_size > 0 {
        larger_patterns_are_larger(0, right_size);
    }
}

/// Infinities are beyond all finite numbers, and nothing is greater or less than
/// what is no number.
pub proof fn comparisons_know_special_numbers(bits: u32, other: u32)
    ensures
        bits % 0x8000_0000 < 0x7f80_0000 ==> greater(0x7f80_0000, bits) && greater(
            bits,
            0xff80_0000,
        ),
        bits % 0x8000_0000 > 0x7f80_0000 ==> !greater(bits, other) && !greater(other, bits),
{
}

/// The total order goes from the negative patterns that are no numbers over the
/// numbers to the positive ones, and tells the zeros apart.
pub proof fn total_order_places_special_numbers(bits: u32, other: u32)
    ensures
        bits > 0xff80_0000 && other <= 0xff80_0000 ==> total_rank(bits) < total_rank(other),
        0x7f80_0000 < bits < 0x8000_0000 && !(0x7f80_0000 < other < 0x8000_0000) ==> total_rank(
            bits,
        ) > total_rank(other),
        total_rank(0x8000_0000) < total_rank(0),
{
}

/// A number is finite where its exponent is not all ones, and positive where
/// its sign is not set and it is not zero.
pub proof fn finite_numbers_have_exponents(bits: u32)
    ensures
        finite(bits) <==> bits / 0x80_0000 % 0x100 != 0xff,
        finite_and_positive(bits) <==> bits / 0x80_0000 % 0x100 != 0xff && bits / 0x8000_0000 == 0
            && bits != 0,
        nan(bits) <==> bits / 0x80_0000 % 0x100 == 0xff && bits % 0x80_0000 != 0,
{
}

} // verus!
