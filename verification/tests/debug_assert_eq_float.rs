use assert_eq_float::assertion::{assert_eq_float, debug_assert_eq_float, with_message, Mismatch};
use assert_eq_float::float::Float;

fn d(x: f64) -> Float {
    Float::Double(x.to_bits())
}

fn pass(verdict: Result<(), Mismatch>) {
    if let Err(report) = verdict {
        panic!("assertion failed: `(left == right)`: {:?}", report);
    }
}

fn pass_or(verdict: Result<(), Mismatch>, text: &str) {
    if let Err(message) = with_message(verdict, || text.to_string()) {
        panic!("{}", message);
    }
}

#[test]
fn debug_assert_eq_float_basic() {
    for enabled in [true, false] {
        pass(debug_assert_eq_float(enabled, d(0.0), d(0.0), None));
        pass_or(debug_assert_eq_float(enabled, d(0.0), d(0.0), None), "not eq");
        pass(debug_assert_eq_float(enabled, d(0.0), d(0.0), Some(d(1e-7))));
        pass_or(debug_assert_eq_float(enabled, d(0.0), d(0.0), Some(d(1e-7))), "not eq");
    }
}

#[test]
fn debug_assert_eq_float_should_panic_not_release() {
    pass(debug_assert_eq_float(false, d(0.0), d(0.1), None));
}

#[test]
fn debug_assert_eq_float_fails_where_enabled() {
    let verdict = debug_assert_eq_float(true, d(0.0), d(0.1), None);
    assert!(verdict.is_err());
    assert_eq!(verdict, assert_eq_float(d(0.0), d(0.1), None));
}
