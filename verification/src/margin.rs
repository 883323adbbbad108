//! The default margin of error: eight machine epsilons of the operand that is
//! smaller in magnitude.
use vstd::prelude::*;
use vstd::arithmetic::power2::*;
use crate::dyadic::{
    lemma_pow2_monotone,
    lemma_pow2_split,
    lemma_round_half_even_bounds,
    lemma_round_half_even_multiple,
    lemma_round_half_even_scaled,
    round_half_even,
    round_half_even_pow2,
};
use crate::float::Float;
use crate::precision::Precision;
use crate::value::Value;

verus! {

impl Precision {
    /// `v * epsilon * 8` as the format computes it from left to right, where
    /// epsilon is `2^-fraction_bits`.
    ///
    /// The product with epsilon is the number of units divided by
    /// `2^fraction_bits`. Where that is no whole number it lies below the
    /// smallest normal number, where the format holds every whole number of
    /// units and none in between: so the format rounds it to the nearest
    /// whole number, ties to even. Multiplying by 8 afterwards is exact.
    pub open spec fn tolerance_of(self, v: Value) -> Value {
        match v {
            Value::Finite { negative, units } => Value::Finite {
                negative,
                units: 8 * round_half_even(units, self.hidden()),
            },
            _ => v,
        }
    }

    /// The default margin of error for two operands:
    /// `min(|a|, |b|) * epsilon * 8`.
    pub open spec fn default_margin(self, a: Value, b: Value) -> Value {
        self.tolerance_of(a.abs().min(b.abs()))
    }
}

impl Float {
    /// `self * epsilon * 8`, computed from left to right.
    pub fn tolerance(self) -> (r: Float)
        ensures
            r.precision() == self.precision(),
            r@ == self.precision().tolerance_of(self@),
    {
        let fmt = self.precision();
        let m: u64 = self.magnitude_bits();
        if m >= fmt.infinity_pattern() {
            return self;
        }
        let (sig, scale): (u64, u32) = fmt.split(m);
        let p: u32 = fmt.fraction_width();
        let ghost h = fmt.hidden();
        let ghost units = fmt.units(m as nat);
        proof {
            fmt.lemma_layout();
            fmt.lemma_split(m as nat);
            lemma2_to64();
        }
        let scaled: u64 = if scale >= p {
            proof {
                let lift = (scale - p) as nat;
                let k = sig as nat * pow2(lift);
                lemma_pow2_split(p as nat, scale as nat);
                lemma_pow2_adds(lift, 3);
                assert(units == k * h) by (nonlinear_arith)
                    requires
                        units == sig as nat * pow2(scale as nat),
                        pow2(scale as nat) == h * pow2(lift),
                        k == sig as nat * pow2(lift),
                ;
                lemma_round_half_even_multiple(k, h);
                assert(8 * k == sig as nat * pow2(lift + 3)) by (nonlinear_arith)
                    requires
                        k == sig as nat * pow2(lift),
                        pow2(lift + 3) == pow2(lift) * 8,
                ;
                fmt.lemma_round_exact(sig as nat, lift + 3);
            }
            fmt.join(sig, scale - p + 3)
        } else {
            let shift: u32 = p - scale;
            let nearest: u128 = round_half_even_pow2(sig as u128, shift);
            proof {
                let q = pow2(shift as nat);
                let c = pow2(scale as nat);
                lemma_pow2_split(scale as nat, p as nat);
                lemma_pow2_monotone(1, shift as nat);
                lemma_round_half_even_scaled(sig as nat, q, c);
                assert(h == q * c) by (nonlinear_arith)
                    requires
                        h == c * q,
                ;
                assert(0 * q <= sig < h * q) by (nonlinear_arith)
                    requires
                        0 <= sig < 2 * h,
                        q >= 2,
                        h > 0,
                ;
                lemma_round_half_even_bounds(sig as nat, q, 0, h);
                lemma_pow2_strictly_increases(fmt.fraction_bits(), 112);
                fmt.lemma_round_exact(nearest as nat, 3);
                assert(nearest as nat * pow2(3) == 8 * nearest);
            }
            fmt.round_scaled(nearest, 3)
        };
        self.with_magnitude(scaled)
    }
}

} // verus!
