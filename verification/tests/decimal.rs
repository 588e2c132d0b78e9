use linguaspark::decimal::{divide, is_positive_quotient, show_float};
use linguaspark::natural::Natural;

fn shows(bits: u32) {
    assert_eq!(show_float(bits), f32::from_bits(bits).to_string(), "{bits:#x}");
}

/// Patterns without any order.
fn patterns(count: usize) -> impl Iterator<Item = u32> {
    let mut state = 0x2545_f491_4f6c_dd1du64;
    std::iter::repeat_with(move || {
        state ^= state << 13;
        state ^= state >> 7;
        state ^= state << 17;
        (state >> 20) as u32
    })
    .take(count)
}

#[test]
fn numbers_without_digits_have_names() {
    assert_eq!(show_float(f32::NAN.to_bits()), "NaN");
    assert_eq!(show_float(f32::NAN.to_bits() | 0x8000_0000), "NaN");
    assert_eq!(show_float(f32::INFINITY.to_bits()), "inf");
    assert_eq!(show_float(f32::NEG_INFINITY.to_bits()), "-inf");
    assert_eq!(show_float(0), "0");
    assert_eq!(show_float(0x8000_0000), "-0");
}

#[test]
fn numbers_are_shown_by_few_digits() {
    for (number, text) in [
        (-1.0f32, "-1"),
        (-0.5, "-0.5"),
        (-2.5, "-2.5"),
        (-100.0, "-100"),
        (-0.1, "-0.1"),
        (-1.0e-7, "-0.0000001"),
        (-16777216.0, "-16777216"),
        (-3.0e10, "-30000000000"),
        (0.3333333433, "0.33333334"),
    ] {
        assert_eq!(show_float(number.to_bits()), text);
        shows(number.to_bits());
    }
}

#[test]
fn numbers_at_the_edges_are_shown() {
    for bits in [
        0x0000_0001,
        0x0000_0002,
        0x0000_0003,
        0x007f_ffff,
        0x0080_0000,
        0x0080_0001,
        0x7f7f_ffff,
        0x7f7f_fffe,
        0x4b80_0000,
        0x4b7f_ffff,
    ] {
        shows(bits);
        shows(bits | 0x8000_0000);
    }
}

#[test]
fn powers_of_two_and_their_neighbours_are_shown() {
    for exponent in 1..255u32 {
        let bits = exponent << 23;
        shows(bits - 1);
        shows(bits | 0x8000_0000);
        shows(bits + 1);
    }
}

#[test]
fn numbers_half_way_between_decimals_are_shown() {
    for number in [
        2097152.25f32,
        2097152.75,
        2097153.25,
        2097153.75,
        3000000.25,
        262144.125,
        262144.375,
        262145.625,
        16777220.0,
        33554436.0,
    ] {
        shows(number.to_bits());
    }
}

#[test]
fn arbitrary_numbers_are_shown() {
    for bits in patterns(600) {
        shows(bits);
    }
}

#[test]
fn quotients_are_rounded() {
    let check = |value: i8, bits: u32| {
        let expected = f32::from(value) / f32::from_bits(bits);
        let quotient = f32::from_bits(divide(value, bits));
        assert!(
            quotient.to_bits() == expected.to_bits() || (quotient.is_nan() && expected.is_nan()),
            "{value} / {bits:#x}"
        );
        assert_eq!(
            is_positive_quotient(value, bits),
            expected.is_finite() && expected > 0.0,
            "{value} / {bits:#x}"
        );
    };
    for bits in [
        0,
        1,
        0x007f_ffff,
        0x0080_0000,
        0x0040_0000,
        0x3f80_0000,
        0x4040_0000,
        0x7f7f_ffff,
        0x7f80_0000,
        0x7fc0_0000,
    ] {
        for value in [i8::MIN, -3, -1, 0, 1, 7, 127] {
            check(value, bits);
            check(value, bits | 0x8000_0000);
        }
    }
    for bits in patterns(300) {
        check((bits >> 3) as i8, bits);
    }
}

#[test]
fn naturals_add_up() {
    let large = Natural::new(u64::MAX);
    let larger = large.plus(&Natural::new(1));
    assert!(large.is_less(&larger));
    assert!(!larger.is_less(&large));
    assert!(!larger.is_less(&larger));
    assert!(!larger.is_less(&Natural::new(1).doubled(64)));
    assert!(!Natural::new(1).doubled(64).is_less(&larger));
    assert!(!Natural::new(1 << 40).times(1 << 24).is_less(&larger));
    assert!(large.times(3).is_less(&larger.times(3)));
    assert!(Natural::new(0).times(7).is_less(&Natural::new(1)));
}
