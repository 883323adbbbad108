use assert_eq_float::dyadic::{bit_length, pow2_u128, round_half_even_pow2};
use assert_eq_float::precision::Precision;

#[test]
fn powers_of_two() {
    assert_eq!(pow2_u128(0), 1);
    assert_eq!(pow2_u128(1), 2);
    assert_eq!(pow2_u128(64), 1u128 << 64);
    assert_eq!(pow2_u128(120), 1u128 << 120);
}

#[test]
fn bit_lengths() {
    assert_eq!(bit_length(0), 0);
    assert_eq!(bit_length(1), 1);
    assert_eq!(bit_length(2), 2);
    assert_eq!(bit_length(3), 2);
    assert_eq!(bit_length(255), 8);
    assert_eq!(bit_length(256), 9);
    assert_eq!(bit_length(u128::MAX), 128);
}

#[test]
fn rounding_goes_to_nearest_and_ties_to_even() {
    assert_eq!(round_half_even_pow2(7, 0), 7);
    assert_eq!(round_half_even_pow2(4, 2), 1);
    assert_eq!(round_half_even_pow2(5, 2), 1);
    assert_eq!(round_half_even_pow2(6, 2), 2);
    assert_eq!(round_half_even_pow2(7, 2), 2);
    assert_eq!(round_half_even_pow2(10, 2), 2);
    assert_eq!(round_half_even_pow2(11, 2), 3);
    assert_eq!(round_half_even_pow2(2, 2), 0);
    assert_eq!(round_half_even_pow2(1, 1), 0);
    assert_eq!(round_half_even_pow2(3, 1), 2);
    assert_eq!(round_half_even_pow2(u128::MAX, 1), 1u128 << 127);
}

#[test]
fn layout_constants() {
    assert_eq!(Precision::Single.fraction_width(), 23);
    assert_eq!(Precision::Double.fraction_width(), 52);
    assert_eq!(Precision::Single.hidden_weight(), 1 << 23);
    assert_eq!(Precision::Double.hidden_weight(), 1 << 52);
    assert_eq!(Precision::Single.exponent_limit(), 255);
    assert_eq!(Precision::Double.exponent_limit(), 2047);
    assert_eq!(Precision::Single.sign_bit(), 1 << 31);
    assert_eq!(Precision::Double.sign_bit(), 1 << 63);
    assert_eq!(Precision::Single.infinity_pattern(), f32::INFINITY.to_bits() as u64);
    assert_eq!(Precision::Double.infinity_pattern(), f64::INFINITY.to_bits());
    assert!(f32::from_bits(Precision::Single.nan_pattern() as u32).is_nan());
    assert!(f64::from_bits(Precision::Double.nan_pattern()).is_nan());
}

#[test]
fn split_and_join_are_inverse() {
    for fmt in [Precision::Single, Precision::Double] {
        let h = fmt.hidden_weight();
        for m in [0u64, 1, h - 1, h, h + 1, 2 * h - 1, 2 * h, 5 * h + 3, fmt.infinity_pattern() - 1] {
            let (sig, scale) = fmt.split(m);
            assert_eq!(fmt.join(sig, scale), m);
        }
        assert_eq!(fmt.split(h - 1), (h - 1, 0));
        assert_eq!(fmt.split(h), (h, 0));
        assert_eq!(fmt.split(2 * h + 1), (h + 1, 1));
        assert_eq!(fmt.join(2 * h, 0), 2 * h);
    }
    assert_eq!(Precision::Double.join(1 << 53, 2045), f64::INFINITY.to_bits());
}

#[test]
fn round_scaled_and_combine() {
    let fmt = Precision::Double;
    assert_eq!(fmt.round_scaled(0, 7), 0);
    assert_eq!(fmt.round_scaled(1, 0), 1);
    assert_eq!(fmt.round_scaled(1, 1074), 1.0f64.to_bits());
    assert_eq!(fmt.round_scaled(3, 1073), 1.5f64.to_bits());
    assert_eq!(fmt.round_scaled((1u128 << 53) + 1, 0), 1u64 << 53);
    assert_eq!(fmt.round_scaled((1u128 << 53) + 3, 0), (1u64 << 53) + 2);
    assert_eq!(fmt.round_scaled((1u128 << 53) + 1, 1074), 9007199254740992.0f64.to_bits());
    assert_eq!(fmt.round_scaled((1u128 << 53) + 3, 1074), 9007199254740996.0f64.to_bits());
    assert_eq!(fmt.round_scaled((1u128 << 54) - 1, 2045), f64::INFINITY.to_bits());
    assert_eq!(fmt.round_scaled((1u128 << 60) - 1, 2040), f64::INFINITY.to_bits());
    assert_eq!(fmt.combine(1.5f64.to_bits(), 1.0f64.to_bits(), true), 0.5f64.to_bits());
    assert_eq!(fmt.combine(1.5f64.to_bits(), 1.0f64.to_bits(), false), 2.5f64.to_bits());
    assert_eq!(fmt.combine(1e300f64.to_bits(), 1.0f64.to_bits(), true), 1e300f64.to_bits());
}
