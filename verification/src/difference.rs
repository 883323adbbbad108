//! The absolute difference of two numbers, rounded as the format rounds it.
use vstd::prelude::*;
use vstd::arithmetic::power2::*;
use vstd::arithmetic::div_mod::lemma_small_mod;
use crate::dyadic::{lemma_pow2_large, lemma_pow2_monotone, lemma_pow2_split, pow2_u128};
use crate::float::Float;
use crate::precision::Precision;
use crate::value::Value;

verus! {

impl Precision {
    /// `|a - b|` as the format computes it. The difference of two finite
    /// numbers is exact before it is rounded once. An infinity minus itself
    /// is NaN; any other difference with an infinity is infinite.
    pub open spec fn abs_difference(self, a: Value, b: Value) -> Value {
        match (a, b) {
            (Value::Finite { .. }, Value::Finite { .. }) => self.round(
                vstd::math::abs(a.signed_units() - b.signed_units()) as nat,
            ),
            (Value::Infinite { negative: s }, Value::Infinite { negative: t }) => if s == t {
                Value::Nan
            } else {
                Value::Infinite { negative: false }
            },
            (Value::Infinite { .. }, Value::Finite { .. }) => Value::Infinite { negative: false },
            (Value::Finite { .. }, Value::Infinite { .. }) => Value::Infinite { negative: false },
            _ => Value::Nan,
        }
    }

    /// Two finite magnitudes whose scales are close: their sum and difference
    /// are whole multiples of the smaller quantum.
    proof fn lemma_aligned(self, big: nat, small: nat)
        requires
            small <= big < self.infinity_bits(),
            self.scale(big) - self.scale(small) <= self.fraction_bits() + 3,
        ensures
            self.scale(small) <= self.scale(big),
            self.significand(small) <= self.significand(big) * pow2(
                (self.scale(big) - self.scale(small)) as nat,
            ) < pow2(2 * self.fraction_bits() + 4),
            self.units(big) + self.units(small) == (self.significand(big) * pow2(
                (self.scale(big) - self.scale(small)) as nat,
            ) + self.significand(small)) * pow2(self.scale(small)),
            self.units(big) - self.units(small) == (self.significand(big) * pow2(
                (self.scale(big) - self.scale(small)) as nat,
            ) - self.significand(small)) * pow2(self.scale(small)),
    {
        self.lemma_layout();
        self.lemma_split(big);
        self.lemma_split(small);
        self.lemma_scale_order(small, big);
        if small < big {
            self.lemma_units_increase(small, big);
        }
        let sb = self.significand(big) as int;
        let ss = self.significand(small) as int;
        let gap = (self.scale(big) - self.scale(small)) as nat;
        let g = pow2(gap) as int;
        let c = pow2(self.scale(small)) as int;
        let pb = pow2(self.scale(big)) as int;
        lemma_pow2_split(self.scale(small), self.scale(big));
        lemma_pow2_monotone(gap, self.fraction_bits() + 3);
        lemma_pow2_adds(self.fraction_bits() + 1, self.fraction_bits() + 3);
        lemma_pow2_unfold(self.fraction_bits() + 1);
        assert(pow2(self.fraction_bits() + 1) == self.significand_limit());
        assert(self.fraction_bits() + 1 + (self.fraction_bits() + 3) == 2 * self.fraction_bits()
            + 4);
        assert(sb * g < pow2(2 * self.fraction_bits() + 4)) by (nonlinear_arith)
            requires
                0 <= sb < self.significand_limit(),
                0 < g <= pow2(self.fraction_bits() + 3),
                pow2(2 * self.fraction_bits() + 4) == self.significand_limit() * pow2(
                    self.fraction_bits() + 3,
                ),
        {
            assert(sb * g < self.significand_limit() * g);
            assert(self.significand_limit() * g <= self.significand_limit() * pow2(
                self.fraction_bits() + 3,
            ));
        }
        assert(sb * pb == (sb * g) * c) by (nonlinear_arith)
            requires
                pb == c * g,
        ;
        assert((sb * g + ss) * c == (sb * g) * c + ss * c && (sb * g - ss) * c == (sb * g) * c
            - ss * c) by (nonlinear_arith);
        assert(ss <= sb * g) by (nonlinear_arith)
            requires
                ss * c <= (sb * g) * c,
                c > 0,
        ;
    }

    /// Larger magnitude bits never have the smaller scale.
    pub proof fn lemma_scale_order(self, m1: nat, m2: nat)
        requires
            m1 <= m2 < self.infinity_bits(),
        ensures
            self.scale(m1) <= self.scale(m2),
    {
        self.lemma_layout();
        self.lemma_split(m1);
        self.lemma_split(m2);
        let h = self.hidden() as int;
        let e1 = self.scale(m1) as int;
        let e2 = self.scale(m2) as int;
        if e1 > e2 {
            assert(e1 * h >= (e2 + 1) * h) by (nonlinear_arith)
                requires
                    e1 >= e2 + 1,
                    h > 0,
            ;
            assert((e2 + 1) * h == e2 * h + h) by (nonlinear_arith);
            assert(false);
        }
    }

    /// Two finite magnitudes whose scales are far apart: the smaller one is
    /// less than an eighth of the larger one's quantum.
    proof fn lemma_far_apart(self, big: nat, small: nat)
        requires
            small <= big < self.infinity_bits(),
            self.scale(big) - self.scale(small) >= self.fraction_bits() + 4,
        ensures
            self.hidden() <= self.significand(big) < self.significand_limit(),
            2 <= self.scale(big) <= self.max_scale(),
            8 * self.units(small) < pow2(self.scale(big)),
    {
        self.lemma_layout();
        self.lemma_split(big);
        self.lemma_split(small);
        let ss = self.significand(small) as int;
        let c = pow2(self.scale(small)) as int;
        let top = (self.scale(small) + self.fraction_bits() + 4) as nat;
        lemma_pow2_adds(self.scale(small), self.fraction_bits() + 4);
        lemma_pow2_adds(self.fraction_bits() + 1, 3);
        lemma_pow2_unfold(self.fraction_bits() + 1);
        lemma2_to64();
        lemma_pow2_monotone(top, self.scale(big));
        assert(self.fraction_bits() + 1 + 3 == self.fraction_bits() + 4);
        assert(pow2(self.fraction_bits() + 4) == 8 * self.significand_limit());
        assert(8 * (ss * c) < pow2(top)) by (nonlinear_arith)
            requires
                0 <= ss < self.significand_limit(),
                c > 0,
                pow2(top) == c * (8 * self.significand_limit()),
        {
            assert(ss * c < self.significand_limit() * c);
        }
    }
}

impl Precision {
    /// Magnitude bits of the sum of two finite magnitudes, or of their
    /// difference, rounded once to the format.
    pub fn combine(self, big: u64, small: u64, subtract: bool) -> (m: u64)
        requires
            small <= big < self.infinity_bits(),
        ensures
            m <= self.infinity_bits(),
            self.units(small as nat) <= self.units(big as nat),
            self.magnitude_value(m as nat) == self.round(
                if subtract {
                    (self.units(big as nat) - self.units(small as nat)) as nat
                } else {
                    self.units(big as nat) + self.units(small as nat)
                },
            ),
    {
        let (big_sig, big_scale): (u64, u32) = self.split(big);
        let (small_sig, small_scale): (u64, u32) = self.split(small);
        proof {
            self.lemma_layout();
            self.lemma_split(big as nat);
            self.lemma_split(small as nat);
            self.lemma_scale_order(small as nat, big as nat);
            if small < big {
                self.lemma_units_increase(small as nat, big as nat);
            }
        }
        let gap: u32 = big_scale - small_scale;
        if gap > self.fraction_width() + 3 {
            proof {
                self.lemma_far_apart(big as nat, small as nat);
                self.lemma_round_absorbs(
                    big_sig as nat,
                    big_scale as nat,
                    self.units(small as nat),
                );
            }
            big
        } else {
            let factor: u128 = pow2_u128(gap);
            proof {
                self.lemma_aligned(big as nat, small as nat);
                lemma_pow2_large();
                lemma_pow2_monotone(2 * self.fraction_bits() + 4, 108);
                lemma_pow2_monotone(self.fraction_bits() + 1, 108);
                lemma_pow2_unfold(self.fraction_bits() + 1);
                lemma_pow2_monotone(108, 120);
                lemma_pow2_adds(108, 4);
                lemma2_to64();
                assert(big_sig * factor < pow2(108));
                assert(small_sig < pow2(108));
                assert(pow2(112) == pow2(108) * 16);
                assert(pow2(112) <= pow2(120)) by {
                    lemma_pow2_monotone(112, 120);
                }
            }
            let shifted: u128 = (big_sig as u128) * factor;
            let exact: u128 = if subtract {
                shifted - small_sig as u128
            } else {
                shifted + small_sig as u128
            };
            self.round_scaled(exact, small_scale)
        }
    }
}

impl Float {
    /// `|self - other|`, rounded once to the nearest number of the format.
    pub fn abs_diff(self, other: Float) -> (r: Float)
        requires
            self.precision() == other.precision(),
        ensures
            r.precision() == self.precision(),
            r@ == self.precision().abs_difference(self@, other@),
    {
        let fmt = self.precision();
        let top: u64 = fmt.infinity_pattern();
        let m1: u64 = self.magnitude_bits();
        let m2: u64 = other.magnitude_bits();
        let same_sign: bool = self.is_sign_negative() == other.is_sign_negative();
        proof {
            fmt.lemma_layout();
        }
        let result: u64 = if m1 > top || m2 > top {
            fmt.nan_pattern()
        } else if m1 == top || m2 == top {
            if m1 == m2 && same_sign {
                fmt.nan_pattern()
            } else {
                top
            }
        } else if m1 >= m2 {
            fmt.combine(m1, m2, same_sign)
        } else {
            fmt.combine(m2, m1, same_sign)
        };
        proof {
            lemma_small_mod(result as nat, fmt.sign_weight());
            if m1 < top && m2 < top {
                let u1 = fmt.units(m1 as nat) as int;
                let u2 = fmt.units(m2 as nat) as int;
                assert(self@ == Value::Finite { negative: self.negative(), units: u1 as nat });
                assert(other@ == Value::Finite { negative: other.negative(), units: u2 as nat });
                let exact = vstd::math::abs(self@.signed_units() - other@.signed_units());
                if same_sign {
                    assert(exact == vstd::math::abs(u1 - u2));
                } else {
                    assert(exact == u1 + u2);
                }
            }
        }
        Float::from_bits(fmt, result)
    }
}

} // verus!
