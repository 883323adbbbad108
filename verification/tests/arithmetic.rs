use assert_eq_float::assertion::{is_approximately_equal, is_approximately_unequal};
use assert_eq_float::float::Float;
use assert_eq_float::get_error;
use assert_eq_float::precision::Precision;
use num_traits::float::FloatCore;
use num_traits::NumCast;

fn d(x: f64) -> Float {
    Float::Double(x.to_bits())
}

fn s(x: f32) -> Float {
    Float::Single(x.to_bits())
}

fn agrees64(got: Float, want: f64) -> bool {
    match got {
        Float::Double(bits) => {
            if want.is_nan() {
                f64::from_bits(bits).is_nan()
            } else {
                bits == want.to_bits()
            }
        }
        Float::Single(_) => false,
    }
}

fn agrees32(got: Float, want: f32) -> bool {
    match got {
        Float::Single(bits) => {
            if want.is_nan() {
                f32::from_bits(bits).is_nan()
            } else {
                bits == want.to_bits()
            }
        }
        Float::Double(_) => false,
    }
}

fn margin64(a: f64, b: f64) -> f64 {
    FloatCore::min(FloatCore::abs(a), FloatCore::abs(b))
        * <f64 as FloatCore>::epsilon()
        * <f64 as NumCast>::from(8).unwrap()
}

fn margin32(a: f32, b: f32) -> f32 {
    FloatCore::min(FloatCore::abs(a), FloatCore::abs(b))
        * <f32 as FloatCore>::epsilon()
        * <f32 as NumCast>::from(8).unwrap()
}

fn check_pair64(a: f64, b: f64) {
    let (x, y) = (d(a), d(b));
    assert!(agrees64(x.abs_diff(y), (a - b).abs()), "abs_diff({:e}, {:e})", a, b);
    assert!(agrees64(get_error(x, y), margin64(a, b)), "get_error({:e}, {:e})", a, b);
    assert_eq!(x.equals(y), a == b, "equals({:e}, {:e})", a, b);
    assert_eq!(x.less_than(y), a < b, "less_than({:e}, {:e})", a, b);
    assert_eq!(x.at_least(y), a >= b, "at_least({:e}, {:e})", a, b);
    assert!(agrees64(x.min(y), FloatCore::min(a, b)) || a == b, "min({:e}, {:e})", a, b);
    let margin = margin64(a, b);
    let diff = (a - b).abs();
    assert_eq!(is_approximately_equal(x, y, d(margin)), a == b || diff < margin);
    assert_eq!(is_approximately_unequal(x, y, d(margin)), a != b && diff >= margin);
}

fn check_pair32(a: f32, b: f32) {
    let (x, y) = (s(a), s(b));
    assert!(agrees32(x.abs_diff(y), (a - b).abs()), "abs_diff({:e}, {:e})", a, b);
    assert!(agrees32(get_error(x, y), margin32(a, b)), "get_error({:e}, {:e})", a, b);
    assert_eq!(x.equals(y), a == b, "equals({:e}, {:e})", a, b);
    assert_eq!(x.less_than(y), a < b, "less_than({:e}, {:e})", a, b);
    assert_eq!(x.at_least(y), a >= b, "at_least({:e}, {:e})", a, b);
    assert!(agrees32(x.min(y), FloatCore::min(a, b)) || a == b, "min({:e}, {:e})", a, b);
    let margin = margin32(a, b);
    let diff = (a - b).abs();
    assert_eq!(is_approximately_equal(x, y, s(margin)), a == b || diff < margin);
    assert_eq!(is_approximately_unequal(x, y, s(margin)), a != b && diff >= margin);
}

fn step(state: &mut u64) -> u64 {
    *state ^= *state << 13;
    *state ^= *state >> 7;
    *state ^= *state << 17;
    *state
}

fn corners64() -> Vec<f64> {
    let mut values = vec![
        0.0,
        5e-324,
        1e-323,
        1.5e-323,
        2.225073858507201e-308,
        2.2250738585072014e-308,
        2.225073858507202e-308,
        4.450147717014403e-308,
        1e-300,
        1e-292,
        2.004168360008973e-292,
        1e-290,
        1e-100,
        1e-15,
        1e-7,
        0.1,
        0.5,
        1.0,
        1.0000000000000002,
        1.1,
        1.2,
        1.1 + 0.1,
        1.5,
        2.0,
        3.0,
        100.001,
        1001.1001,
        9007199254740991.0,
        9007199254740992.0,
        9007199254740994.0,
        1e100,
        3e100,
        1e100 + 2e100,
        8.98846567431158e307,
        1.7976931348623155e308,
        f64::MAX,
        f64::INFINITY,
        f64::NAN,
    ];
    for exponent in [1u64, 2, 3, 4, 50, 51, 52, 53, 54, 55, 56, 57, 58, 2045, 2046] {
        for fraction in [0u64, 1, 2, 3, 0x8_0000_0000_0000, 0xf_ffff_ffff_fffe, 0xf_ffff_ffff_ffff] {
            values.push(f64::from_bits((exponent << 52) | fraction));
        }
    }
    for k in 1u64..40 {
        values.push(f64::from_bits(k));
        values.push(f64::from_bits(k << 48));
    }
    let negated: Vec<f64> = values.iter().map(|x| -x).collect();
    values.extend(negated);
    values
}

fn corners32() -> Vec<f32> {
    let mut values = vec![
        0.0f32,
        1e-45,
        3e-45,
        1.1754942e-38,
        1.17549435e-38,
        1.1754945e-38,
        1e-30,
        1e-7,
        0.1,
        0.5,
        1.0,
        1.0000001,
        1.01,
        1.1,
        1.11,
        1.5,
        2.0,
        100.001,
        100.0011,
        16777215.0,
        16777216.0,
        16777218.0,
        1e30,
        1.7014117e38,
        3.4028233e38,
        f32::MAX,
        f32::INFINITY,
        f32::NAN,
    ];
    for exponent in [1u32, 2, 3, 4, 21, 22, 23, 24, 25, 26, 27, 28, 29, 253, 254] {
        for fraction in [0u32, 1, 2, 3, 0x40_0000, 0x7f_fffe, 0x7f_ffff] {
            values.push(f32::from_bits((exponent << 23) | fraction));
        }
    }
    for k in 1u32..40 {
        values.push(f32::from_bits(k));
        values.push(f32::from_bits(k << 19));
    }
    let negated: Vec<f32> = values.iter().map(|x| -x).collect();
    values.extend(negated);
    values
}

#[test]
fn double_corner_cases_agree_with_hardware() {
    let values = corners64();
    for &a in &values {
        for &b in &values {
            check_pair64(a, b);
        }
    }
}

#[test]
fn single_corner_cases_agree_with_hardware() {
    let values = corners32();
    for &a in &values {
        for &b in &values {
            check_pair32(a, b);
        }
    }
}

#[test]
fn double_random_patterns_agree_with_hardware() {
    let mut state: u64 = 0x9e37_79b9_7f4a_7c15;
    for _ in 0..40_000 {
        let a = f64::from_bits(step(&mut state));
        let b = f64::from_bits(step(&mut state));
        check_pair64(a, b);
    }
}

#[test]
fn double_nearby_patterns_agree_with_hardware() {
    let mut state: u64 = 0x2545_f491_4f6c_dd1d;
    for _ in 0..40_000 {
        let bits = step(&mut state);
        let a = f64::from_bits(bits);
        let exponent = (bits >> 52) & 0x7ff;
        let shift = step(&mut state) % 121;
        let moved = (exponent + shift).saturating_sub(60).min(0x7ff);
        let other = (step(&mut state) & 0x800f_ffff_ffff_ffff) | (moved << 52);
        check_pair64(a, f64::from_bits(other));
        let close = bits.wrapping_add(step(&mut state) % 17).wrapping_sub(8);
        check_pair64(a, f64::from_bits(close));
        check_pair64(a, f64::from_bits(close ^ 0x8000_0000_0000_0000));
    }
}

#[test]
fn double_small_patterns_agree_with_hardware() {
    let mut state: u64 = 0x1234_5678_9abc_def1;
    for _ in 0..40_000 {
        let a = f64::from_bits(step(&mut state) % (70u64 << 52));
        let b = f64::from_bits(step(&mut state) % (70u64 << 52));
        check_pair64(a, b);
        check_pair64(-a, b);
    }
}

#[test]
fn single_random_patterns_agree_with_hardware() {
    let mut state: u64 = 0x0f0f_1e1e_2d2d_3c3c;
    for _ in 0..40_000 {
        let a = f32::from_bits(step(&mut state) as u32);
        let b = f32::from_bits(step(&mut state) as u32);
        check_pair32(a, b);
    }
}

#[test]
fn single_nearby_patterns_agree_with_hardware() {
    let mut state: u64 = 0x7777_3333_1111_5555;
    for _ in 0..40_000 {
        let bits = step(&mut state) as u32;
        let a = f32::from_bits(bits);
        let exponent = (bits >> 23) & 0xff;
        let shift = (step(&mut state) % 61) as u32;
        let moved = (exponent + shift).saturating_sub(30).min(0xff);
        let other = (step(&mut state) as u32 & 0x807f_ffff) | (moved << 23);
        check_pair32(a, f32::from_bits(other));
        let close = bits.wrapping_add((step(&mut state) % 17) as u32).wrapping_sub(8);
        check_pair32(a, f32::from_bits(close));
        check_pair32(a, f32::from_bits(close ^ 0x8000_0000));
    }
}

#[test]
fn single_small_patterns_agree_with_hardware() {
    let mut state: u64 = 0x0bad_cafe_dead_beef;
    for _ in 0..40_000 {
        let a = f32::from_bits((step(&mut state) % (40u64 << 23)) as u32);
        let b = f32::from_bits((step(&mut state) % (40u64 << 23)) as u32);
        check_pair32(a, b);
        check_pair32(-a, b);
    }
}

#[test]
fn tolerance_agrees_with_hardware() {
    let mut state: u64 = 0x5151_a2a2_7373_c4c4;
    for _ in 0..40_000 {
        let a = f64::from_bits(step(&mut state));
        assert!(agrees64(d(a).tolerance(), a * f64::EPSILON * 8.0), "tolerance({:e})", a);
        let b = f32::from_bits(step(&mut state) as u32);
        assert!(agrees32(s(b).tolerance(), b * f32::EPSILON * 8.0), "tolerance({:e})", b);
        let c = f64::from_bits(step(&mut state) % (70u64 << 52));
        assert!(agrees64(d(-c).tolerance(), -c * f64::EPSILON * 8.0), "tolerance({:e})", -c);
        let e = f32::from_bits((step(&mut state) % (40u64 << 23)) as u32);
        assert!(agrees32(s(e).tolerance(), e * f32::EPSILON * 8.0), "tolerance({:e})", e);
    }
}

#[test]
fn default_margin_exact_values() {
    assert_eq!(get_error(d(0.0), d(0.0)), d(0.0));
    assert_eq!(get_error(d(-0.0), d(5.0)), d(0.0));
    assert_eq!(get_error(d(1.0), d(2.0)), d(1.7763568394002505e-15));
    assert_eq!(get_error(d(-3.0), d(2.0)), d(3.552713678800501e-15));
    assert_eq!(get_error(d(1.1 + 0.1), d(1.2)), d(2.1316282072803005e-15));
    assert_eq!(get_error(d(1e100 + 2e100), d(3e100)), d(5.329070518200751e85));
    assert_eq!(get_error(s(1.0), s(2.0)), s(9.536743e-7));
    assert_eq!(get_error(d(f64::INFINITY), d(f64::INFINITY)), d(f64::INFINITY));
    assert_eq!(get_error(d(f64::INFINITY), d(2.0)), d(3.552713678800501e-15));
    assert_eq!(get_error(d(f64::NAN), d(2.0)), d(3.552713678800501e-15));
    assert_eq!(get_error(d(2.0), d(f64::NAN)), d(3.552713678800501e-15));
    assert!(get_error(d(f64::NAN), d(f64::NAN)).is_nan());
    assert_eq!(get_error(d(5e-324), d(1.0)), d(0.0));
    assert_eq!(get_error(d(2.2250738585072014e-308), d(1.0)), d(4e-323));
}

#[test]
fn abs_diff_exact_values() {
    assert_eq!(d(1.5).abs_diff(d(1.0)), d(0.5));
    assert_eq!(d(1.0).abs_diff(d(1.5)), d(0.5));
    assert_eq!(d(-1.0).abs_diff(d(1.5)), d(2.5));
    assert_eq!(d(0.3).abs_diff(d(0.1)), d(0.19999999999999998));
    assert_eq!(d(1e16).abs_diff(d(-1.0)), d(1e16));
    assert_eq!(d(f64::MAX).abs_diff(d(-f64::MAX)), d(f64::INFINITY));
    assert_eq!(d(f64::INFINITY).abs_diff(d(1.0)), d(f64::INFINITY));
    assert_eq!(d(f64::INFINITY).abs_diff(d(f64::NEG_INFINITY)), d(f64::INFINITY));
    assert!(d(f64::INFINITY).abs_diff(d(f64::INFINITY)).is_nan());
    assert!(d(f64::NAN).abs_diff(d(1.0)).is_nan());
    assert_eq!(d(-0.0).abs_diff(d(0.0)), d(0.0));
    assert_eq!(s(16777216.0).abs_diff(s(-1.0)), s(16777216.0));
    assert_eq!(s(16777218.0).abs_diff(s(-1.0)), s(16777220.0));
}

#[test]
fn classification_and_sign() {
    assert!(d(f64::NAN).is_nan());
    assert!(!d(f64::INFINITY).is_nan());
    assert!(d(f64::NEG_INFINITY).is_infinite());
    assert!(!d(f64::MAX).is_infinite());
    assert!(d(f64::MAX).is_finite());
    assert!(!d(f64::NAN).is_finite());
    assert!(d(-0.0).is_sign_negative());
    assert!(!d(0.0).is_sign_negative());
    assert_eq!(d(-2.5).abs(), d(2.5));
    assert_eq!(s(-0.0).abs(), s(0.0));
    assert_eq!(d(-2.5).precision(), Precision::Double);
    assert_eq!(s(-2.5).precision(), Precision::Single);
    assert_eq!(s(1.0).bits(), 0x3f80_0000);
    assert_eq!(d(1.0).bits(), 0x3ff0_0000_0000_0000);
    assert_eq!(d(1.0).magnitude_bits(), d(-1.0).magnitude_bits());
    assert_eq!(Float::from_bits(Precision::Single, 0x3f80_0000), s(1.0));
    assert_eq!(Float::from_bits(Precision::Double, 0xbff0_0000_0000_0000), d(-1.0));
    assert_eq!(d(-1.0).with_magnitude(d(2.0).bits()), d(-2.0));
}
