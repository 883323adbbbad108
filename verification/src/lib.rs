//! Tolerant equality and inequality checks for IEEE 754 binary floating-point
//! numbers, decided on their bit patterns with integer arithmetic only.
//!
//! A [`float::Float`] carries the bit pattern of a single- or double-precision
//! number. Every operation is stated over the number that the pattern denotes
//! (see [`value::Value`]), and proved to compute what is stated.
use vstd::prelude::*;

pub mod assertion;
pub mod difference;
pub mod dyadic;
pub mod float;
pub mod laws;
pub mod margin;
pub mod precision;
pub mod rounding;
pub mod value;

use crate::float::Float;

verus! {

/// The default margin of error for comparing `a` with `b`: the operand that
/// is smaller in magnitude, times the machine epsilon, times 8.
///
/// The margin grows with the operands, so that numbers near 1 and numbers
/// near 1e100 are compared with the same relative tolerance. Two zeros leave
/// no margin at all.
pub fn get_error(a: Float, b: Float) -> (r: Float)
    requires
        a.precision() == b.precision(),
    ensures
        r.precision() == a.precision(),
        r@ == a.precision().default_margin(a@, b@),
{
    a.abs().min(b.abs()).tolerance()
}

} // verus!
