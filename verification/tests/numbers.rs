use linguaspark::bytes::{to_signed8, to_signed32, word32, word64};
use linguaspark::ieee::{is_finite, is_finite_and_positive, is_greater, rank_of};
use linguaspark::message::{decimal, decimal_usize, hex, prefixed_hex, signed_decimal};

const SAMPLES: [f32; 12] = [
    0.0,
    -0.0,
    1.0,
    -1.0,
    f32::MIN_POSITIVE,
    -f32::MIN_POSITIVE,
    f32::MAX,
    f32::MIN,
    f32::INFINITY,
    f32::NEG_INFINITY,
    f32::NAN,
    1.0e-40,
];

#[test]
fn patterns_compare_like_their_numbers() {
    for left in SAMPLES {
        assert_eq!(is_finite(left.to_bits()), left.is_finite());
        assert_eq!(
            is_finite_and_positive(left.to_bits()),
            left.is_finite() && left > 0.0
        );
        for right in SAMPLES {
            assert_eq!(
                is_greater(left.to_bits(), right.to_bits()),
                left > right,
                "{left} > {right}"
            );
            assert_eq!(
                rank_of(left.to_bits()).cmp(&rank_of(right.to_bits())),
                left.total_cmp(&right),
                "{left} and {right}"
            );
        }
    }
}

#[test]
fn negative_nan_ranks_lowest() {
    let nan = 0xffc0_0000u32;
    assert!(rank_of(nan) < rank_of(f32::NEG_INFINITY.to_bits()));
    assert!(!is_finite(nan));
}

#[test]
fn numbers_are_written_like_the_standard_library_does() {
    for value in [0u64, 7, 10, 1234567890, u64::MAX] {
        assert_eq!(decimal(value), value.to_string());
        assert_eq!(prefixed_hex(value), format!("{value:#x}"));
    }
    for value in [0i64, -1, 42, i64::MIN, i64::MAX] {
        assert_eq!(signed_decimal(value), value.to_string());
    }
    assert_eq!(decimal_usize(305), "305");
    assert_eq!(hex(&[0, 0xab, 0xff]), "00abff");
    assert_eq!(hex(&[]), "");
}

#[test]
fn words_are_little_endian() {
    let bytes = [0xff, 1, 2, 3, 4, 5, 6, 7, 0x80];
    assert_eq!(word32(&bytes, 1), u32::from_le_bytes([1, 2, 3, 4]));
    assert_eq!(word64(&bytes, 1), u64::from_le_bytes([1, 2, 3, 4, 5, 6, 7, 0x80]));
    assert_eq!(to_signed32(0xffff_fffe), -2);
    assert_eq!(to_signed32(5), 5);
    assert_eq!(to_signed8(0x80), -128);
    assert_eq!(to_signed8(0x7f), 127);
}
