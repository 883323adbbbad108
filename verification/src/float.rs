//! Bit patterns of floating-point numbers and the numbers they denote.
use vstd::prelude::*;
use vstd::arithmetic::power2::*;
use vstd::arithmetic::div_mod::*;
use crate::dyadic::{lemma_pow2_double, lemma_pow2_monotone};
use crate::precision::Precision;
use crate::value::Value;

verus! {

/// The bit pattern of an IEEE 754 number, as `to_bits` gives it.
#[derive(Clone, Copy, PartialEq, Eq, Structural, Debug)]
pub enum Float {
    /// A binary32 pattern.
    Single(u32),
    /// A binary64 pattern.
    Double(u64),
}

impl Precision {
    /// The significand of the finite number with magnitude bits `m`: the
    /// fraction field, with the leading bit added for a normal number.
    pub open spec fn significand(self, m: nat) -> nat {
        if m < self.hidden() {
            m
        } else {
            self.hidden() + m % self.hidden()
        }
    }

    /// The power of two that scales the significand of the finite number with
    /// magnitude bits `m` to units: zero for a subnormal and in the lowest
    /// normal binade, one more in each binade above.
    pub open spec fn scale(self, m: nat) -> nat {
        if m < self.hidden() {
            0
        } else {
            (m / self.hidden() - 1) as nat
        }
    }

    /// The finite number with magnitude bits `m`, in units of the smallest
    /// subnormal.
    pub open spec fn units(self, m: nat) -> nat {
        self.significand(m) * pow2(self.scale(m))
    }

    /// The non-negative number whose bits below the sign bit are `m`.
    pub open spec fn magnitude_value(self, m: nat) -> Value {
        if m > self.infinity_bits() {
            Value::Nan
        } else if m == self.infinity_bits() {
            Value::Infinite { negative: false }
        } else {
            Value::Finite { negative: false, units: self.units(m) }
        }
    }

    /// The number that a whole bit pattern denotes.
    pub open spec fn decode(self, bits: nat) -> Value {
        self.magnitude_value(bits % self.sign_weight()).with_sign(bits >= self.sign_weight())
    }

    /// Magnitude bits are their scale times the leading-bit weight plus their
    /// significand, and a normal significand has its leading bit set.
    pub proof fn lemma_split(self, m: nat)
        requires
            m < self.infinity_bits(),
        ensures
            m == self.scale(m) * self.hidden() + self.significand(m),
            self.significand(m) < self.significand_limit(),
            self.scale(m) <= self.max_scale(),
            m >= self.hidden() ==> self.significand(m) >= self.hidden(),
            m < self.hidden() ==> self.significand(m) == m && self.scale(m) == 0,
            pow2(self.scale(m)) > 0,
    {
        self.lemma_layout();
        let h = self.hidden() as int;
        let e = (m / self.hidden()) as int;
        let f = (m % self.hidden()) as int;
        lemma_fundamental_div_mod(m as int, h);
        lemma_mod_bound(m as int, h);
        lemma_pow2_pos(self.scale(m));
        let top = self.max_exponent() as int;
        assert(e < top) by (nonlinear_arith)
            requires
                m == h * e + f,
                f >= 0,
                h > 0,
                m < top * h,
        ;
        if m >= self.hidden() {
            assert(e >= 1) by (nonlinear_arith)
                requires
                    m == h * e + f,
                    f < h,
                    h > 0,
                    m >= h,
            ;
            assert((e - 1) * h + (h + f) == m) by (nonlinear_arith)
                requires
                    m == h * e + f,
            ;
        }
    }

    /// Larger magnitude bits denote a larger finite number.
    pub proof fn lemma_units_increase(self, m1: nat, m2: nat)
        requires
            m1 < m2 < self.infinity_bits(),
        ensures
            self.units(m1) < self.units(m2),
    {
        self.lemma_layout();
        self.lemma_split(m1);
        self.lemma_split(m2);
        let h = self.hidden() as int;
        let s1 = self.significand(m1) as int;
        let s2 = self.significand(m2) as int;
        let e1 = self.scale(m1) as int;
        let e2 = self.scale(m2) as int;
        let w1 = pow2(self.scale(m1)) as int;
        let w2 = pow2(self.scale(m2)) as int;
        if e1 > e2 {
            assert(e1 * h >= (e2 + 1) * h) by (nonlinear_arith)
                requires
                    e1 >= e2 + 1,
                    h > 0,
            ;
            assert((e2 + 1) * h == e2 * h + h) by (nonlinear_arith);
            assert(false);
        } else if e1 == e2 {
            assert(s1 < s2);
            assert(s1 * w1 < s2 * w1) by (nonlinear_arith)
                requires
                    s1 < s2,
                    w1 > 0,
            ;
        } else {
            assert(e2 * h >= h) by (nonlinear_arith)
                requires
                    e2 >= 1,
                    h > 0,
            ;
            assert(s2 >= h);
            lemma_pow2_double(self.scale(m1));
            lemma_pow2_monotone((self.scale(m1) + 1) as nat, self.scale(m2));
            assert(s1 * w1 < s2 * w2) by (nonlinear_arith)
                requires
                    0 <= s1 < 2 * h,
                    s2 >= h,
                    w1 > 0,
                    2 * w1 <= w2,
                    h > 0,
            {
                assert(s1 * w1 < (2 * h) * w1);
                assert((2 * h) * w1 == h * (2 * w1));
                assert(h * (2 * w1) <= h * w2);
                assert(h * w2 <= s2 * w2);
            }
        }
    }

    /// On magnitude bits up to those of infinity, the order of the bits is the
    /// order of the numbers, and only the zero pattern denotes zero.
    pub proof fn lemma_magnitude_order(self, m1: nat, m2: nat)
        requires
            m1 <= self.infinity_bits(),
            m2 <= self.infinity_bits(),
        ensures
            m1 < m2 <==> self.magnitude_value(m1).less_than(self.magnitude_value(m2)),
            m1 == m2 <==> self.magnitude_value(m1).equals(self.magnitude_value(m2)),
            m1 == 0 <==> self.magnitude_value(m1).is_zero(),
            !self.magnitude_value(m1).is_nan(),
    {
        self.lemma_layout();
        let top = self.infinity_bits();
        if m1 < top && m2 < top {
            if m1 < m2 {
                self.lemma_units_increase(m1, m2);
            } else if m2 < m1 {
                self.lemma_units_increase(m2, m1);
            }
        }
        if 0 < m1 < top {
            self.lemma_units_increase(0, m1);
        }
        assert(self.units(0) == 0) by {
            assert(self.significand(0) == 0);
            assert(0 * pow2(self.scale(0)) == 0);
        }
    }
}

impl Float {
    pub open spec fn spec_precision(self) -> Precision {
        match self {
            Float::Single(_) => Precision::Single,
            Float::Double(_) => Precision::Double,
        }
    }

    /// The format of this pattern.
    #[verifier::when_used_as_spec(spec_precision)]
    pub fn precision(self) -> (r: Precision)
        ensures
            r == self.spec_precision(),
    {
        match self {
            Float::Single(_) => Precision::Single,
            Float::Double(_) => Precision::Double,
        }
    }

    pub open spec fn spec_bits(self) -> u64 {
        match self {
            Float::Single(b) => b as u64,
            Float::Double(b) => b,
        }
    }

    /// The pattern as an integer.
    #[verifier::when_used_as_spec(spec_bits)]
    pub fn bits(self) -> (r: u64)
        ensures
            r == self.spec_bits(),
    {
        match self {
            Float::Single(b) => b as u64,
            Float::Double(b) => b,
        }
    }

    /// The pattern `bits` in the given format.
    pub fn from_bits(precision: Precision, bits: u64) -> (r: Float)
        requires
            bits < 2 * precision.sign_weight(),
        ensures
            r.precision() == precision,
            r.bits() == bits,
    {
        proof {
            precision.lemma_layout();
        }
        match precision {
            Precision::Single => Float::Single(bits as u32),
            Precision::Double => Float::Double(bits),
        }
    }

    /// The bits below the sign bit.
    pub open spec fn magnitude(self) -> nat {
        self.bits() as nat % self.precision().sign_weight()
    }

    /// Whether the sign bit is set.
    pub open spec fn negative(self) -> bool {
        self.bits() >= self.precision().sign_weight()
    }

    /// The bits below the sign bit.
    pub fn magnitude_bits(self) -> (m: u64)
        ensures
            m == self.magnitude(),
            m < self.precision().sign_weight(),
    {
        let sign: u64 = self.precision().sign_bit();
        let bits: u64 = self.bits();
        proof {
            self.precision().lemma_layout();
            if bits >= sign {
                lemma_fundamental_div_mod_converse(
                    bits as int,
                    sign as int,
                    1,
                    (bits - sign) as int,
                );
            } else {
                lemma_small_mod(bits as nat, sign as nat);
            }
        }
        if bits >= sign {
            bits - sign
        } else {
            bits
        }
    }

    /// The pattern with the sign of this one and the magnitude bits `m`.
    pub fn with_magnitude(self, m: u64) -> (r: Float)
        requires
            m < self.precision().sign_weight(),
        ensures
            r.precision() == self.precision(),
            r.magnitude() == m,
            r.negative() == self.negative(),
            r@ == self.precision().magnitude_value(m as nat).with_sign(self.negative()),
    {
        let sign: u64 = self.precision().sign_bit();
        proof {
            self.precision().lemma_layout();
            lemma_fundamental_div_mod_converse((sign + m) as int, sign as int, 1, m as int);
            lemma_small_mod(m as nat, sign as nat);
        }
        if self.is_sign_negative() {
            Float::from_bits(self.precision(), sign + m)
        } else {
            Float::from_bits(self.precision(), m)
        }
    }

    /// Whether the sign bit is set; this holds of negative zero and of a NaN
    /// with the sign bit set too.
    pub fn is_sign_negative(self) -> (r: bool)
        ensures
            r == self.negative(),
    {
        self.bits() >= self.precision().sign_bit()
    }

    /// Whether the pattern is a NaN.
    pub fn is_nan(self) -> (r: bool)
        ensures
            r == self@.is_nan(),
    {
        self.magnitude_bits() > self.precision().infinity_pattern()
    }

    /// Whether the pattern is positive or negative infinity.
    pub fn is_infinite(self) -> (r: bool)
        ensures
            r == (self@ is Infinite),
    {
        self.magnitude_bits() == self.precision().infinity_pattern()
    }

    /// Whether the pattern is neither an infinity nor a NaN.
    pub fn is_finite(self) -> (r: bool)
        ensures
            r == (self@ is Finite),
    {
        self.magnitude_bits() < self.precision().infinity_pattern()
    }

    /// The magnitude: the same pattern with the sign bit cleared.
    pub fn abs(self) -> (r: Float)
        ensures
            r.precision() == self.precision(),
            r.bits() == self.magnitude(),
            r@ == self@.abs(),
    {
        let m: u64 = self.magnitude_bits();
        proof {
            lemma_small_mod(m as nat, self.precision().sign_weight());
        }
        Float::from_bits(self.precision(), m)
    }

    /// IEEE 754 `==`.
    pub fn equals(self, other: Float) -> (r: bool)
        requires
            self.precision() == other.precision(),
        ensures
            r == self@.equals(other@),
    {
        let top: u64 = self.precision().infinity_pattern();
        let m1: u64 = self.magnitude_bits();
        let m2: u64 = other.magnitude_bits();
        if m1 > top || m2 > top {
            return false;
        }
        proof {
            self.precision().lemma_magnitude_order(m1 as nat, m2 as nat);
            self.precision().lemma_magnitude_order(m2 as nat, m1 as nat);
        }
        if m1 == 0 && m2 == 0 {
            true
        } else {
            m1 == m2 && self.is_sign_negative() == other.is_sign_negative()
        }
    }

    /// IEEE 754 `<`.
    pub fn less_than(self, other: Float) -> (r: bool)
        requires
            self.precision() == other.precision(),
        ensures
            r == self@.less_than(other@),
    {
        let top: u64 = self.precision().infinity_pattern();
        let m1: u64 = self.magnitude_bits();
        let m2: u64 = other.magnitude_bits();
        if m1 > top || m2 > top {
            return false;
        }
        proof {
            self.precision().lemma_magnitude_order(m1 as nat, m2 as nat);
            self.precision().lemma_magnitude_order(m2 as nat, m1 as nat);
        }
        if self.is_sign_negative() {
            if other.is_sign_negative() {
                m2 < m1
            } else {
                m1 != 0 || m2 != 0
            }
        } else {
            if other.is_sign_negative() {
                false
            } else {
                m1 < m2
            }
        }
    }

    /// IEEE 754 `>=`.
    pub fn at_least(self, other: Float) -> (r: bool)
        requires
            self.precision() == other.precision(),
        ensures
            r == self@.at_least(other@),
    {
        other.less_than(self) || self.equals(other)
    }

    /// The lesser of two numbers; where one is a NaN, the other.
    pub fn min(self, other: Float) -> (r: Float)
        requires
            self.precision() == other.precision(),
        ensures
            r == self || r == other,
            r@ == self@.min(other@),
    {
        if self.is_nan() {
            other
        } else if other.is_nan() {
            self
        } else if self.less_than(other) {
            self
        } else {
            other
        }
    }
}

impl View for Float {
    type V = Value;

    /// The number that the pattern denotes.
    open spec fn view(&self) -> Value {
        self.precision().decode(self.bits() as nat)
    }
}

} // verus!
