//! The numbers that bit patterns denote, and IEEE 754 comparison on them.
use vstd::prelude::*;

verus! {

/// What a floating-point bit pattern stands for.
///
/// A finite number is counted in units of the smallest positive subnormal of
/// its format, so every finite number of a format is a whole number of units.
/// Zero keeps its sign.
pub enum Value {
    /// Not a number, whatever its sign and payload.
    Nan,
    /// Positive or negative infinity.
    Infinite { negative: bool },
    /// `units` times the smallest subnormal, negated if `negative`.
    Finite { negative: bool, units: nat },
}

impl Value {
    pub open spec fn is_nan(self) -> bool {
        self is Nan
    }

    /// Positive or negative zero.
    pub open spec fn is_zero(self) -> bool {
        self matches Value::Finite { units, .. } && units == 0
    }

    /// The same magnitude with the given sign; NaN stays NaN.
    pub open spec fn with_sign(self, negative: bool) -> Value {
        match self {
            Value::Nan => Value::Nan,
            Value::Infinite { .. } => Value::Infinite { negative },
            Value::Finite { units, .. } => Value::Finite { negative, units },
        }
    }

    /// The magnitude: the sign is dropped.
    pub open spec fn abs(self) -> Value {
        self.with_sign(false)
    }

    /// A finite number as a signed count of units.
    pub open spec fn signed_units(self) -> int {
        match self {
            Value::Finite { negative, units } => if negative {
                -(units as int)
            } else {
                units as int
            },
            _ => 0,
        }
    }

    /// IEEE 754 equality: NaN equals nothing, the two zeros are equal, every
    /// other number equals only itself.
    pub open spec fn equals(self, other: Value) -> bool {
        match (self, other) {
            (Value::Infinite { negative: s }, Value::Infinite { negative: t }) => s == t,
            (Value::Finite { .. }, Value::Finite { .. }) => self.signed_units()
                == other.signed_units(),
            _ => false,
        }
    }

    /// IEEE 754 `<`: false whenever an operand is NaN.
    pub open spec fn less_than(self, other: Value) -> bool {
        match (self, other) {
            (Value::Infinite { negative: s }, Value::Infinite { negative: t }) => s && !t,
            (Value::Infinite { negative: s }, Value::Finite { .. }) => s,
            (Value::Finite { .. }, Value::Infinite { negative: t }) => !t,
            (Value::Finite { .. }, Value::Finite { .. }) => self.signed_units()
                < other.signed_units(),
            _ => false,
        }
    }

    /// IEEE 754 `>=`: false whenever an operand is NaN.
    pub open spec fn at_least(self, other: Value) -> bool {
        other.less_than(self) || self.equals(other)
    }

    /// The lesser of two numbers; where one is NaN, the other.
    pub open spec fn min(self, other: Value) -> Value {
        if self is Nan {
            other
        } else if other is Nan {
            self
        } else if self.less_than(other) {
            self
        } else {
            other
        }
    }
}

} // verus!
