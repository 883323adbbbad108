//! The four assertions: approximately equal, approximately unequal, and the
//! two that only check where debug assertions are enabled.
//!
//! An assertion returns its verdict; raising the failure is left to the
//! caller, who also renders the report.
use vstd::prelude::*;
use crate::float::Float;
use crate::get_error;
use crate::precision::Precision;
use crate::value::Value;

verus! {

/// The expectation that a failed assertion had.
#[derive(Clone, Copy, PartialEq, Eq, Structural, Debug)]
pub enum MismatchKind {
    /// The operands were expected to be approximately equal.
    Equality,
    /// The operands were expected to differ by the margin or more.
    Inequality,
}

/// What a failed assertion reports: the operands, their absolute difference
/// and the margin it was held against.
#[derive(Clone, Copy, PartialEq, Eq, Structural, Debug)]
pub struct Mismatch {
    pub kind: MismatchKind,
    pub left: Float,
    pub right: Float,
    pub diff: Float,
    pub margin: Float,
}

impl Precision {
    /// Two numbers are approximately equal where they are equal, or where
    /// their absolute difference is less than the margin. A NaN is
    /// approximately equal to nothing.
    pub open spec fn approximately_equal(self, a: Value, b: Value, margin: Value) -> bool {
        a.equals(b) || self.abs_difference(a, b).less_than(margin)
    }

    /// Two numbers are approximately unequal where they are not equal and
    /// their absolute difference is at least the margin. This is stronger
    /// than not being approximately equal: a NaN is approximately unequal to
    /// nothing either.
    pub open spec fn approximately_unequal(self, a: Value, b: Value, margin: Value) -> bool {
        !a.equals(b) && self.abs_difference(a, b).at_least(margin)
    }
}

/// The margin that an assertion holds the difference against: the caller's,
/// taken as it is, or else the default margin of the two operands.
pub open spec fn margin_in_force(left: Float, right: Float, margin: Option<Float>) -> Value {
    match margin {
        Some(m) => m@,
        None => left.precision().default_margin(left@, right@),
    }
}

/// Whether the equality assertion passes.
pub open spec fn passes_equal(left: Float, right: Float, margin: Option<Float>) -> bool {
    left.precision().approximately_equal(left@, right@, margin_in_force(left, right, margin))
}

/// Whether the inequality assertion passes.
pub open spec fn passes_unequal(left: Float, right: Float, margin: Option<Float>) -> bool {
    left.precision().approximately_unequal(left@, right@, margin_in_force(left, right, margin))
}

/// Whether `report` describes the failed comparison of `left` with `right`.
pub open spec fn reports(
    report: Mismatch,
    kind: MismatchKind,
    left: Float,
    right: Float,
    margin: Option<Float>,
) -> bool {
    &&& report.kind == kind
    &&& report.left == left
    &&& report.right == right
    &&& report.diff.precision() == left.precision()
    &&& report.diff@ == left.precision().abs_difference(left@, right@)
    &&& report.margin.precision() == left.precision()
    &&& report.margin@ == margin_in_force(left, right, margin)
    &&& margin matches Some(m) ==> report.margin == m
}

/// What the equality assertion returns.
pub open spec fn equality_verdict(
    left: Float,
    right: Float,
    margin: Option<Float>,
    verdict: Result<(), Mismatch>,
) -> bool {
    match verdict {
        Ok(_) => passes_equal(left, right, margin),
        Err(report) => !passes_equal(left, right, margin) && reports(
            report,
            MismatchKind::Equality,
            left,
            right,
            margin,
        ),
    }
}

/// What the inequality assertion returns.
pub open spec fn inequality_verdict(
    left: Float,
    right: Float,
    margin: Option<Float>,
    verdict: Result<(), Mismatch>,
) -> bool {
    match verdict {
        Ok(_) => passes_unequal(left, right, margin),
        Err(report) => !passes_unequal(left, right, margin) && reports(
            report,
            MismatchKind::Inequality,
            left,
            right,
            margin,
        ),
    }
}

/// Whether `a` and `b` are equal or differ by less than `margin`.
pub fn is_approximately_equal(a: Float, b: Float, margin: Float) -> (r: bool)
    requires
        a.precision() == b.precision(),
        a.precision() == margin.precision(),
    ensures
        r == a.precision().approximately_equal(a@, b@, margin@),
{
    if a.equals(b) {
        true
    } else {
        a.abs_diff(b).less_than(margin)
    }
}

/// Whether `a` and `b` are not equal and differ by `margin` or more.
pub fn is_approximately_unequal(a: Float, b: Float, margin: Float) -> (r: bool)
    requires
        a.precision() == b.precision(),
        a.precision() == margin.precision(),
    ensures
        r == a.precision().approximately_unequal(a@, b@, margin@),
{
    if a.equals(b) {
        false
    } else {
        a.abs_diff(b).at_least(margin)
    }
}

/// Asserts that `left` and `right` are approximately equal, within `margin`
/// or, without one, within their default margin.
pub fn assert_eq_float(left: Float, right: Float, margin: Option<Float>) -> (verdict: Result<
    (),
    Mismatch,
>)
    requires
        left.precision() == right.precision(),
        margin matches Some(m) ==> m.precision() == left.precision(),
    ensures
        equality_verdict(left, right, margin, verdict),
{
    let allowed: Float = match margin {
        Some(m) => m,
        None => get_error(left, right),
    };
    if is_approximately_equal(left, right, allowed) {
        Ok(())
    } else {
        Err(
            Mismatch {
                kind: MismatchKind::Equality,
                left,
                right,
                diff: left.abs_diff(right),
                margin: allowed,
            },
        )
    }
}

/// Asserts that `left` and `right` are approximately unequal: not equal, and
/// apart by `margin` or, without one, by their default margin.
pub fn assert_ne_float(left: Float, right: Float, margin: Option<Float>) -> (verdict: Result<
    (),
    Mismatch,
>)
    requires
        left.precision() == right.precision(),
        margin matches Some(m) ==> m.precision() == left.precision(),
    ensures
        inequality_verdict(left, right, margin, verdict),
{
    let required: Float = match margin {
        Some(m) => m,
        None => get_error(left, right),
    };
    if is_approximately_unequal(left, right, required) {
        Ok(())
    } else {
        Err(
            Mismatch {
                kind: MismatchKind::Inequality,
                left,
                right,
                diff: left.abs_diff(right),
                margin: required,
            },
        )
    }
}

/// The equality assertion where `debug_assertions` is set; where it is not,
/// nothing is compared and the assertion passes.
pub fn debug_assert_eq_float(
    debug_assertions: bool,
    left: Float,
    right: Float,
    margin: Option<Float>,
) -> (verdict: Result<(), Mismatch>)
    requires
        left.precision() == right.precision(),
        margin matches Some(m) ==> m.precision() == left.precision(),
    ensures
        debug_assertions ==> equality_verdict(left, right, margin, verdict),
        !debug_assertions ==> verdict is Ok,
{
    if debug_assertions {
        assert_eq_float(left, right, margin)
    } else {
        Ok(())
    }
}

/// The inequality assertion where `debug_assertions` is set; where it is not,
/// nothing is compared and the assertion passes.
pub fn debug_assert_ne_float(
    debug_assertions: bool,
    left: Float,
    right: Float,
    margin: Option<Float>,
) -> (verdict: Result<(), Mismatch>)
    requires
        left.precision() == right.precision(),
        margin matches Some(m) ==> m.precision() == left.precision(),
    ensures
        debug_assertions ==> inequality_verdict(left, right, margin, verdict),
        !debug_assertions ==> verdict is Ok,
{
    if debug_assertions {
        assert_ne_float(left, right, margin)
    } else {
        Ok(())
    }
}

/// Replaces the report of a failed assertion by the caller's own message.
/// The message is built only for a failure; a verdict that passed is handed
/// on and `message` is never called.
pub fn with_message<F: FnOnce() -> String>(verdict: Result<(), Mismatch>, message: F) -> (r:
    Result<(), String>)
    requires
        verdict is Err ==> message.requires(()),
    ensures
        r is Ok <==> verdict is Ok,
        r matches Err(text) ==> message.ensures((), text),
{
    match verdict {
        Ok(_) => Ok(()),
        Err(_) => Err(message()),
    }
}

} // verus!
