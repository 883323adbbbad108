//! What holds of the assertions on all operands.
use vstd::prelude::*;
use vstd::arithmetic::div_mod::{lemma_basic_div, lemma_fundamental_div_mod, lemma_small_mod};
use vstd::arithmetic::power2::{lemma_pow2_pos, pow2};
use crate::dyadic::lemma_round_half_even_multiple;
use crate::assertion::{passes_equal, passes_unequal};
use crate::float::Float;
use crate::value::Value;

verus! {

/// Every number that is not a NaN is approximately equal to itself under the
/// default margin, and never approximately unequal to itself.
pub proof fn lemma_reflexive(x: Float)
    requires
        !x@.is_nan(),
    ensures
        passes_equal(x, x, None),
        !passes_unequal(x, x, None),
{
}

/// Operands that are equal are approximately equal and not approximately
/// unequal, whatever the margin: among them an infinity and itself, and the
/// two zeros.
pub proof fn lemma_equal_operands(left: Float, right: Float, margin: Option<Float>)
    requires
        left.precision() == right.precision(),
        left@.equals(right@),
    ensures
        passes_equal(left, right, margin),
        !passes_unequal(left, right, margin),
{
}

/// With a NaN among the operands both assertions fail, whatever the margin.
pub proof fn lemma_nan_is_indeterminate(left: Float, right: Float, margin: Option<Float>)
    requires
        left.precision() == right.precision(),
        left@.is_nan() || right@.is_nan(),
    ensures
        !passes_equal(left, right, margin),
        !passes_unequal(left, right, margin),
{
}

/// No pair of operands passes both assertions under one margin.
pub proof fn lemma_verdicts_exclude(left: Float, right: Float, margin: Option<Float>)
    requires
        left.precision() == right.precision(),
    ensures
        !(passes_equal(left, right, margin) && passes_unequal(left, right, margin)),
{
}

/// Infinities of opposite sign are not approximately equal, whatever the
/// margin.
pub proof fn lemma_opposite_infinities(left: Float, right: Float, margin: Option<Float>)
    requires
        left.precision() == right.precision(),
        left@ matches Value::Infinite { negative: s } && right@ == (Value::Infinite {
            negative: !s,
        }),
    ensures
        !passes_equal(left, right, margin),
{
}

/// The default margin is zero as soon as one operand is a zero.
pub proof fn lemma_zero_margin(left: Float, right: Float)
    requires
        left.precision() == right.precision(),
        left@.is_zero() || right@.is_zero(),
    ensures
        left.precision().default_margin(left@, right@) == (Value::Finite {
            negative: false,
            units: 0,
        }),
{
    let fmt = left.precision();
    fmt.lemma_layout();
    lemma_basic_div(0, fmt.hidden() as int);
    lemma_small_mod(0, fmt.hidden());
}

/// Under the default margin a zero is approximately equal to the zeros and
/// to nothing else.
pub proof fn lemma_zero_needs_exact_match(left: Float, right: Float)
    requires
        left.precision() == right.precision(),
        left@.is_zero(),
    ensures
        passes_equal(left, right, None) <==> right@.is_zero(),
        passes_equal(right, left, None) <==> right@.is_zero(),
{
    lemma_zero_margin(left, right);
    lemma_zero_margin(right, left);
}

/// Scaling both operands by a factor other than zero changes neither
/// verdict under the default margin, provided that the scaled operands, the
/// scaled margin and the scaled difference are exactly the factor's
/// multiples of the unscaled ones, so that no rounding gets in the way.
pub proof fn lemma_scale_invariance(
    left: Float,
    right: Float,
    scaled_left: Float,
    scaled_right: Float,
    factor: int,
)
    requires
        left.precision() == right.precision(),
        left.precision() == scaled_left.precision(),
        left.precision() == scaled_right.precision(),
        left@ is Finite,
        right@ is Finite,
        scaled_left@ is Finite,
        scaled_right@ is Finite,
        factor != 0,
        scaled_left@.signed_units() == factor * left@.signed_units(),
        scaled_right@.signed_units() == factor * right@.signed_units(),
        left.precision().abs_difference(left@, right@) is Finite,
        left.precision().abs_difference(scaled_left@, scaled_right@) is Finite,
        left.precision().abs_difference(scaled_left@, scaled_right@).signed_units()
            == vstd::math::abs(factor) * left.precision().abs_difference(
            left@,
            right@,
        ).signed_units(),
        left.precision().default_margin(scaled_left@, scaled_right@).signed_units()
            == vstd::math::abs(factor) * left.precision().default_margin(
            left@,
            right@,
        ).signed_units(),
    ensures
        passes_equal(left, right, None) == passes_equal(scaled_left, scaled_right, None),
        passes_unequal(left, right, None) == passes_unequal(scaled_left, scaled_right, None),
{
    let fmt = left.precision();
    let a = left@.signed_units();
    let b = right@.signed_units();
    let d = fmt.abs_difference(left@, right@).signed_units();
    let m = fmt.default_margin(left@, right@).signed_units();
    let k = vstd::math::abs(factor);
    assert((factor * a == factor * b) == (a == b)) by (nonlinear_arith)
        requires
            factor != 0,
    ;
    assert((k * d < k * m) == (d < m) && (k * d == k * m) == (d == m)) by (nonlinear_arith)
        requires
            k > 0,
    ;
    assert(fmt.default_margin(left@, right@) is Finite);
    assert(fmt.default_margin(scaled_left@, scaled_right@) is Finite);
}

/// Scaling both operands by a power of two changes neither verdict under the
/// default margin, as long as the default margin of the unscaled operands is
/// computed without rounding and the scaled difference does not overflow.
pub proof fn lemma_power_of_two_scaling(
    left: Float,
    right: Float,
    scaled_left: Float,
    scaled_right: Float,
    doublings: nat,
)
    requires
        left.precision() == right.precision(),
        left.precision() == scaled_left.precision(),
        left.precision() == scaled_right.precision(),
        left@ is Finite,
        right@ is Finite,
        scaled_left@ is Finite,
        scaled_right@ is Finite,
        scaled_left@.signed_units() == pow2(doublings) * left@.signed_units(),
        scaled_right@.signed_units() == pow2(doublings) * right@.signed_units(),
        left@.abs().min(right@.abs()).signed_units() % (left.precision().hidden() as int) == 0,
        left.precision().abs_difference(scaled_left@, scaled_right@) is Finite,
    ensures
        passes_equal(left, right, None) == passes_equal(scaled_left, scaled_right, None),
        passes_unequal(left, right, None) == passes_unequal(scaled_left, scaled_right, None),
{
    let fmt = left.precision();
    fmt.lemma_layout();
    let h = fmt.hidden();
    let k = pow2(doublings);
    lemma_pow2_pos(doublings);
    let a = left@.signed_units();
    let b = right@.signed_units();
    let ua = vstd::math::abs(a);
    let ub = vstd::math::abs(b);
    // the difference
    let x = vstd::math::abs(a - b) as nat;
    assert(vstd::math::abs(k * a - k * b) == x * k) by {
        assert(k * a - k * b == (a - b) * k) by (nonlinear_arith);
        if a >= b {
            assert((a - b) * k >= 0) by (nonlinear_arith)
                requires
                    a - b >= 0,
                    k > 0,
            ;
        } else {
            assert((a - b) * k < 0 && (b - a) * k == -((a - b) * k)) by (nonlinear_arith)
                requires
                    a - b < 0,
                    k > 0,
            ;
        }
    }
    assert(fmt.abs_difference(left@, right@) == fmt.round(x));
    assert(fmt.abs_difference(scaled_left@, scaled_right@) == fmt.round(x * k));
    fmt.lemma_round_scales(x, doublings);
    let d = fmt.round(x).signed_units();
    assert(d * k == k * d) by (nonlinear_arith);
    assert(vstd::math::abs(k as int) == k);
    // the operand that is smaller in magnitude
    assert(vstd::math::abs(k * a) == k * ua && vstd::math::abs(k * b) == k * ub
        && (k * ua < k * ub) == (ua < ub)) by (nonlinear_arith)
        requires
            k > 0,
            ua == (if a >= 0 {
                a
            } else {
                -a
            }),
            ub == (if b >= 0 {
                b
            } else {
                -b
            }),
    ;
    let least = left@.abs().min(right@.abs());
    let scaled_least = scaled_left@.abs().min(scaled_right@.abs());
    assert(left@.abs().signed_units() == ua);
    assert(right@.abs().signed_units() == ub);
    assert(scaled_left@.abs().signed_units() == k * ua);
    assert(scaled_right@.abs().signed_units() == k * ub);
    assert(scaled_least.signed_units() == k * least.signed_units());
    // the margin
    let mu = least.signed_units() as nat;
    let q = mu / h;
    lemma_fundamental_div_mod(mu as int, h as int);
    assert(mu == q * h && mu * k == (q * k) * h) by (nonlinear_arith)
        requires
            mu == h * q + 0,
    ;
    lemma_round_half_even_multiple(q, h);
    lemma_round_half_even_multiple(q * k, h);
    assert(8 * (q * k) == k * (8 * q)) by (nonlinear_arith);
    assert(k * least.signed_units() == mu * k) by (nonlinear_arith)
        requires
            mu == least.signed_units(),
    ;
    lemma_scale_invariance(left, right, scaled_left, scaled_right, k as int);
}

} // verus!
