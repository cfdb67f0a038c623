use vstd::arithmetic::power2::pow2;
use vstd::prelude::*;

verus! {

/// The number that a single-precision pattern stands for.
///
/// Magnitudes count steps of 2^-149, the smallest positive single, so every finite single is a
/// whole number of steps below `infinity()`. The magnitude `infinity()` stands for an infinite
/// number. Both zeros are numbers of magnitude 0.
pub enum Value {
    Nan,
    Number { negative: bool, magnitude: nat },
}

/// The magnitude of 1.0, in steps.
pub open spec fn unit() -> nat {
    pow2(149)
}

/// The magnitude that stands for infinity: twice the highest power of two among the finite
/// singles.
pub open spec fn infinity() -> nat {
    pow2(277)
}

/// The exponent of the spacing between neighbouring singles at a magnitude whose whole part is
/// `q` steps: below 2^24 steps the singles are one step apart, and the spacing doubles with
/// every doubling of the magnitude from there on.
pub open spec fn binade(q: nat) -> nat
    decreases q,
{
    if q < 0x100_0000 {
        0
    } else {
        1 + binade(q / 2)
    }
}

/// The whole number nearest to `n / d`; of two equally near ones, the even one.
pub open spec fn nearest_even(n: nat, d: nat) -> nat {
    let q: nat = n / d;
    let r: nat = n % d;
    if 2 * r < d || (2 * r == d && q % 2 == 0) {
        q
    } else {
        q + 1
    }
}

/// The magnitude `n / d`, in steps, rounded to the nearest magnitude that a single with
/// unbounded exponent can have, ties going to the even significand.
pub open spec fn rne(n: nat, d: nat) -> nat {
    let step: nat = pow2(binade(n / d));
    nearest_even(n, d * step) * step
}

impl Value {
    /// The number of the given sign and magnitude; magnitudes from `infinity()` on are infinite.
    pub open spec fn number(negative: bool, magnitude: nat) -> Value {
        Value::Number {
            negative,
            magnitude: if magnitude >= infinity() {
                infinity()
            } else {
                magnitude
            },
        }
    }

    /// The single nearest to the magnitude `n / d` steps, with the given sign.
    pub open spec fn rounded(negative: bool, n: nat, d: nat) -> Value {
        Value::number(negative, rne(n, d))
    }

    /// Positive zero.
    pub open spec fn zero() -> Value {
        Value::Number { negative: false, magnitude: 0 }
    }

    /// 1.0, or -1.0.
    pub open spec fn one(negative: bool) -> Value {
        Value::Number { negative, magnitude: unit() }
    }

    /// Whether this is no number.
    pub open spec fn is_nan(self) -> bool {
        self == Value::Nan
    }

    /// The sign of a number; a zero has one too.
    pub open spec fn negative(self) -> bool {
        match self {
            Value::Nan => false,
            Value::Number { negative, .. } => negative,
        }
    }

    /// The magnitude of a number, in steps.
    pub open spec fn magnitude(self) -> nat {
        match self {
            Value::Nan => 0,
            Value::Number { magnitude, .. } => magnitude,
        }
    }

    /// Whether this is a finite number.
    pub open spec fn is_finite(self) -> bool {
        !self.is_nan() && self.magnitude() < infinity()
    }

    /// Whether this is an infinite number.
    pub open spec fn is_infinite(self) -> bool {
        !self.is_nan() && self.magnitude() >= infinity()
    }

    /// Whether this is a zero, of either sign.
    pub open spec fn is_zero(self) -> bool {
        !self.is_nan() && self.magnitude() == 0
    }

    /// The number in steps, with its sign. Meaningful for numbers only.
    pub open spec fn signed(self) -> int {
        if self.negative() {
            -(self.magnitude() as int)
        } else {
            self.magnitude() as int
        }
    }

    /// The number with its sign turned; a NaN stays.
    pub open spec fn negated(self) -> Value {
        match self {
            Value::Nan => Value::Nan,
            Value::Number { negative, magnitude } => Value::Number { negative: !negative, magnitude },
        }
    }

    /// The sum as IEEE 754 defines it for rounding to nearest, ties to even.
    pub open spec fn sum(self, rhs: Value) -> Value {
        if self.is_nan() || rhs.is_nan() {
            Value::Nan
        } else if self.is_infinite() && rhs.is_infinite() {
            if self.negative() == rhs.negative() {
                self
            } else {
                Value::Nan
            }
        } else if self.is_infinite() {
            self
        } else if rhs.is_infinite() {
            rhs
        } else {
            Value::finite_sum(self.negative(), self.magnitude(), rhs.negative(), rhs.magnitude())
        }
    }

    /// The sum of two finite numbers, given by sign and magnitude: the exact sum, rounded. An
    /// exact sum of zero is negative only where both numbers are.
    pub open spec fn finite_sum(sa: bool, a: nat, sb: bool, b: nat) -> Value {
        let s: int = (if sa { -(a as int) } else { a as int }) + (if sb { -(b as int) } else { b as int });
        if s == 0 {
            Value::Number { negative: sa && sb, magnitude: 0 }
        } else {
            Value::rounded(s < 0, (if s < 0 { -s } else { s }) as nat, 1)
        }
    }

    /// The difference: the sum with the negated number.
    pub open spec fn difference(self, rhs: Value) -> Value {
        self.sum(rhs.negated())
    }

    /// The product as IEEE 754 defines it for rounding to nearest, ties to even.
    pub open spec fn product(self, rhs: Value) -> Value {
        let negative: bool = self.negative() != rhs.negative();
        if self.is_nan() || rhs.is_nan() {
            Value::Nan
        } else if self.is_infinite() || rhs.is_infinite() {
            if self.is_zero() || rhs.is_zero() {
                Value::Nan
            } else {
                Value::Number { negative, magnitude: infinity() }
            }
        } else {
            Value::rounded(negative, self.magnitude() * rhs.magnitude(), unit())
        }
    }

    /// The quotient as IEEE 754 defines it for rounding to nearest, ties to even.
    pub open spec fn quotient(self, rhs: Value) -> Value {
        let negative: bool = self.negative() != rhs.negative();
        if self.is_nan() || rhs.is_nan() {
            Value::Nan
        } else if self.is_infinite() {
            if rhs.is_infinite() {
                Value::Nan
            } else {
                Value::Number { negative, magnitude: infinity() }
            }
        } else if rhs.is_infinite() {
            Value::Number { negative, magnitude: 0 }
        } else if rhs.is_zero() {
            if self.is_zero() {
                Value::Nan
            } else {
                Value::Number { negative, magnitude: infinity() }
            }
        } else {
            Value::rounded(negative, self.magnitude() * unit(), rhs.magnitude())
        }
    }

    /// `self < rhs` as IEEE 754 compares: nothing is below or above a NaN, and the two zeros
    /// are equal.
    pub open spec fn less(self, rhs: Value) -> bool {
        !self.is_nan() && !rhs.is_nan() && self.signed() < rhs.signed()
    }

    /// `self` where it lies between the bounds, else the bound that it passed; a NaN stays.
    pub open spec fn clamped(self, lo: Value, hi: Value) -> Value {
        if self.less(lo) {
            lo
        } else if hi.less(self) {
            hi
        } else {
            self
        }
    }
}

} // verus!
