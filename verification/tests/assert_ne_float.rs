use assert_eq_float::assertion::{assert_ne_float, with_message, Mismatch, MismatchKind};
use assert_eq_float::float::Float;

fn d(x: f64) -> Float {
    Float::Double(x.to_bits())
}

fn s(x: f32) -> Float {
    Float::Single(x.to_bits())
}

fn pass(verdict: Result<(), Mismatch>) {
    if let Err(report) = verdict {
        panic!("assertion failed: `(left != right)`: {:?}", report);
    }
}

fn pass_or(verdict: Result<(), Mismatch>, text: &str) {
    if let Err(message) = with_message(verdict, || text.to_string()) {
        panic!("{}", message);
    }
}

#[test]
fn assert_ne_float_basic() {
    pass(assert_ne_float(s(0.0f32), s(1.0e-7f32), None));
    pass(assert_ne_float(d(0.0f64), d(1.0e-15f64), None));
}

#[test]
fn assert_ne_float_default_error_ok() {
    pass(assert_ne_float(d(0.0), d(1.0e-7), None));

    pass(assert_ne_float(s(1.0f32), s(1.01f32), None));
    pass(assert_ne_float(s(1.1f32), s(1.11f32), None));
    pass(assert_ne_float(s(100.001f32), s(100.0011f32), None));

    pass(assert_ne_float(d(1.0f64), d(1.01f64), None));
    pass(assert_ne_float(d(1.1f64), d(1.11f64), None));
    pass(assert_ne_float(d(100.001f64), d(100.0011f64), None));
    pass(assert_ne_float(d(-1001.1001f64), d(-1001.10011f64), None));

    pass(assert_ne_float(d(1.1 + 0.1), d(1.21), None));

    pass_or(assert_ne_float(d(1e100 + 2e100), d(3.1e100), None), "equal");
}

#[test]
fn assert_ne_float_custom_error_ok() {
    pass(assert_ne_float(d(0.0), d(1.0e-7), Some(d(1e-7))));

    pass(assert_ne_float(s(1.0f32), s(1.01f32), Some(s(1e-7))));
    pass(assert_ne_float(s(1.1f32), s(1.11f32), Some(s(1e-7))));
    pass(assert_ne_float(s(100.001f32), s(100.0011f32), Some(s(1e-7))));

    pass(assert_ne_float(d(1.0f64), d(1.01f64), Some(d(1e-7))));
    pass(assert_ne_float(d(1.1f64), d(1.11f64), Some(d(1e-7))));
    pass(assert_ne_float(d(100.001f64), d(100.0011f64), Some(d(1e-7))));
    pass(assert_ne_float(d(-1001.1001f64), d(-1001.10011f64), Some(d(1e-7))));

    pass(assert_ne_float(d(1.1 + 0.1), d(1.21), Some(d(1e-7))));

    pass(assert_ne_float(d(1e100 + 2e100), d(3e100), Some(d(1e-7))));

    pass_or(assert_ne_float(d(1e100 + 2e100), d(3.1e100), Some(d(1e90))), "equal");
}

#[test]
#[should_panic]
fn assert_ne_float_custom_error_not_ok() {
    pass(assert_ne_float(d(1e100 + 2e100), d(3e100), None));
}

#[test]
#[should_panic]
fn infinite_f32() {
    pass(assert_ne_float(s(f32::INFINITY), s(f32::INFINITY), None));
}

#[test]
#[should_panic]
fn infinite_f64() {
    pass(assert_ne_float(d(f64::INFINITY), d(f64::INFINITY), None));
}

#[test]
#[should_panic]
fn zero_f32() {
    pass(assert_ne_float(s(0.0f32), s(0.0f32), None));
}

#[test]
#[should_panic]
fn zero_f64() {
    pass(assert_ne_float(d(0.0f64), d(0.0f64), None));
}

#[test]
fn ne_threshold_for_single_precision() {
    assert!(assert_ne_float(s(0.0), s(1e-7), None).is_ok());
    assert!(assert_ne_float(s(0.0), s(0.0), None).is_err());
    assert!(assert_ne_float(d(0.0), d(-0.0), None).is_err());
}

#[test]
fn ne_failure_reports_operands_difference_and_margin() {
    let left = d(1e100 + 2e100);
    let right = d(3e100);
    let report = assert_ne_float(left, right, None).unwrap_err();
    assert_eq!(report.kind, MismatchKind::Inequality);
    assert_eq!(report.left, left);
    assert_eq!(report.right, right);
    assert_eq!(report.diff, d(((1e100 + 2e100) - 3e100f64).abs()));
    assert_eq!(report.margin, d(3e100 * f64::EPSILON * 8.0));
}

#[test]
fn ne_failure_on_equal_infinities_has_no_difference() {
    let report = assert_ne_float(d(f64::INFINITY), d(f64::INFINITY), None).unwrap_err();
    assert_eq!(report.kind, MismatchKind::Inequality);
    assert!(report.diff.is_nan());
    assert_eq!(report.margin, d(f64::INFINITY));
}

#[test]
fn ne_nan_never_passes() {
    assert!(assert_ne_float(d(f64::NAN), d(f64::NAN), None).is_err());
    assert!(assert_ne_float(d(f64::NAN), d(1.0), None).is_err());
    assert!(assert_ne_float(d(1.0), d(f64::NAN), Some(d(0.0))).is_err());
    assert!(assert_ne_float(d(1.0), d(2.0), Some(d(f64::NAN))).is_err());
    assert!(assert_ne_float(s(f32::NAN), s(f32::NAN), None).is_err());
}

#[test]
fn ne_infinities_of_opposite_sign_differ() {
    assert!(assert_ne_float(d(f64::INFINITY), d(f64::NEG_INFINITY), None).is_ok());
    assert!(assert_ne_float(d(f64::INFINITY), d(1.0), None).is_ok());
}

#[test]
fn ne_negative_margin_passes_unless_exact_match() {
    assert!(assert_ne_float(d(1.0), d(1.0 + f64::EPSILON), Some(d(-1.0))).is_ok());
    assert!(assert_ne_float(d(1.0), d(1.0), Some(d(-1.0))).is_err());
}

#[test]
fn ne_margin_is_an_inclusive_bound() {
    assert!(assert_ne_float(d(1.0), d(1.5), Some(d(0.5))).is_ok());
    assert!(assert_ne_float(d(1.0), d(1.5), Some(d(0.5000000000000001))).is_err());
}

#[test]
fn ne_and_eq_never_both_pass() {
    let values = [0.0f64, -0.0, 1.0, 1.0 + f64::EPSILON, 1.0 + 8.0 * f64::EPSILON, 1.5, -1.5, 1e100, f64::INFINITY, f64::NEG_INFINITY, f64::NAN];
    for a in values {
        for b in values {
            let eq = assert_eq_float::assertion::assert_eq_float(d(a), d(b), None).is_ok();
            let ne = assert_ne_float(d(a), d(b), None).is_ok();
            assert!(!(eq && ne));
        }
    }
}
