//! The two binary formats and the constants of their bit layout.
use vstd::prelude::*;
use vstd::arithmetic::power2::*;

verus! {

/// An IEEE 754 binary interchange format.
#[derive(Clone, Copy, PartialEq, Eq, Structural, Debug)]
pub enum Precision {
    /// binary32: 1 sign bit, 8 exponent bits, 23 fraction bits.
    Single,
    /// binary64: 1 sign bit, 11 exponent bits, 52 fraction bits.
    Double,
}

impl Precision {
    /// Number of stored fraction bits.
    pub open spec fn fraction_bits(self) -> nat {
        match self {
            Precision::Single => 23,
            Precision::Double => 52,
        }
    }

    /// Number of bits of the biased exponent field.
    pub open spec fn exponent_bits(self) -> nat {
        match self {
            Precision::Single => 8,
            Precision::Double => 11,
        }
    }

    /// Weight of the leading bit of a normal significand, `2^fraction_bits`.
    /// It is also the number of units in the smallest normal number.
    pub open spec fn hidden(self) -> nat {
        pow2(self.fraction_bits())
    }

    /// Exclusive upper bound of a significand, `2^(fraction_bits + 1)`.
    pub open spec fn significand_limit(self) -> nat {
        2 * self.hidden()
    }

    /// The exponent field with all bits set, which marks infinities and NaN.
    pub open spec fn max_exponent(self) -> nat {
        (pow2(self.exponent_bits()) - 1) as nat
    }

    /// Largest power of two by which a significand of a finite number is
    /// scaled, counted in units of the smallest subnormal.
    pub open spec fn max_scale(self) -> nat {
        (self.max_exponent() - 2) as nat
    }

    /// Weight of the sign bit, `2^(fraction_bits + exponent_bits)`.
    pub open spec fn sign_weight(self) -> nat {
        pow2(self.fraction_bits() + self.exponent_bits())
    }

    /// The magnitude bits of an infinity: exponent field all ones, fraction zero.
    pub open spec fn infinity_bits(self) -> nat {
        self.max_exponent() * self.hidden()
    }

    /// The layout constants as numbers.
    pub proof fn lemma_layout(self)
        ensures
            self == Precision::Single ==> self.hidden() == 0x80_0000 && self.max_exponent() == 255
                && self.sign_weight() == 0x8000_0000 && self.infinity_bits() == 0x7f80_0000,
            self == Precision::Double ==> self.hidden() == 0x10_0000_0000_0000
                && self.max_exponent() == 2047 && self.sign_weight() == 0x8000_0000_0000_0000
                && self.infinity_bits() == 0x7ff0_0000_0000_0000,
            self.sign_weight() == (self.max_exponent() + 1) * self.hidden(),
            self.significand_limit() == 2 * self.hidden(),
            self.max_scale() + 2 == self.max_exponent(),
            self.fraction_bits() + 4 <= self.max_scale(),
    {
        lemma2_to64();
        lemma2_to64_rest();
    }

    /// Number of stored fraction bits.
    pub fn fraction_width(self) -> (r: u32)
        ensures
            r == self.fraction_bits(),
    {
        match self {
            Precision::Single => 23,
            Precision::Double => 52,
        }
    }

    /// Weight of the leading significand bit.
    pub fn hidden_weight(self) -> (r: u64)
        ensures
            r == self.hidden(),
    {
        proof {
            self.lemma_layout();
        }
        match self {
            Precision::Single => 0x80_0000,
            Precision::Double => 0x10_0000_0000_0000,
        }
    }

    /// The all-ones exponent field.
    pub fn exponent_limit(self) -> (r: u64)
        ensures
            r == self.max_exponent(),
    {
        proof {
            self.lemma_layout();
        }
        match self {
            Precision::Single => 255,
            Precision::Double => 2047,
        }
    }

    /// Weight of the sign bit.
    pub fn sign_bit(self) -> (r: u64)
        ensures
            r == self.sign_weight(),
    {
        proof {
            self.lemma_layout();
        }
        match self {
            Precision::Single => 0x8000_0000,
            Precision::Double => 0x8000_0000_0000_0000,
        }
    }

    /// Magnitude bits of the quiet NaN with an empty payload.
    pub fn nan_pattern(self) -> (r: u64)
        ensures
            self.infinity_bits() < r < self.sign_weight(),
    {
        proof {
            self.lemma_layout();
        }
        match self {
            Precision::Single => 0x7fc0_0000,
            Precision::Double => 0x7ff8_0000_0000_0000,
        }
    }

    /// Magnitude bits of an infinity.
    pub fn infinity_pattern(self) -> (r: u64)
        ensures
            r == self.infinity_bits(),
    {
        proof {
            self.lemma_layout();
        }
        match self {
            Precision::Single => 0x7f80_0000,
            Precision::Double => 0x7ff0_0000_0000_0000,
        }
    }
}

} // verus!
