use crate::rounding::lemma_pow2_monotone;
use crate::value::{infinity, unit, Value};
use vstd::arithmetic::power2::{
    lemma2_to64, lemma_pow2_adds, lemma_pow2_pos, lemma_pow2_strictly_increases,
    lemma_pow2_unfold, pow2,
};
use vstd::prelude::*;

verus! {

/// A single-precision binary floating-point number, held as its IEEE 754 bit pattern: one sign
/// bit, eight exponent bits, twenty-three fraction bits.
#[derive(Clone, Copy, Debug)]
pub struct Single {
    pub bits: u32,
}

/// The magnitude, in steps of 2^-149, that the low 31 bits of a pattern stand for. The pattern of
/// infinity comes out as `infinity()`.
pub open spec fn pattern_magnitude(low: nat) -> nat {
    let e: nat = low / 0x80_0000;
    let f: nat = low % 0x80_0000;
    if e == 0 {
        f
    } else {
        (0x80_0000 + f) * pow2((e - 1) as nat)
    }
}

impl View for Single {
    type V = Value;

    /// The patterns above that of infinity, in their low 31 bits, are the NaNs.
    open spec fn view(&self) -> Value {
        let low: nat = (self.bits % 0x8000_0000) as nat;
        if low > 0x7F80_0000 {
            Value::Nan
        } else {
            Value::Number { negative: self.bits >= 0x8000_0000, magnitude: pattern_magnitude(low) }
        }
    }
}

/// The pattern of infinity stands for `infinity()`, and that of 1.0 for `unit()`.
pub proof fn lemma_pattern_landmarks()
    ensures
        pattern_magnitude(0) == 0,
        pattern_magnitude(0x7F80_0000) == infinity(),
        pattern_magnitude(0x3F80_0000) == unit(),
{
    lemma2_to64();
    lemma_pow2_adds(23, 254);
    lemma_pow2_adds(23, 126);
}

/// The magnitude of the pattern that holds the spacing exponent `j` and the significand `m`, as
/// the rounding leaves them: `m` may have reached 2^24, which carries into the exponent.
pub proof fn lemma_pattern_packed(j: nat, m: nat)
    requires
        m <= 0x100_0000,
        j == 0 || m >= 0x80_0000,
    ensures
        j * 0x80_0000 + m < 0x7F80_0000 ==> pattern_magnitude(j * 0x80_0000 + m) == m * pow2(j)
            && m * pow2(j) < infinity(),
        j * 0x80_0000 + m >= 0x7F80_0000 ==> m * pow2(j) >= infinity(),
{
    lemma2_to64();
    lemma_pow2_pos(j);
    let low: nat = j * 0x80_0000 + m;
    let pj: nat = pow2(j);
    if m < 0x80_0000 {
        assert(low / 0x80_0000 == 0);
        lemma_pow2_strictly_increases(23, 277);
    } else if m < 0x100_0000 {
        assert(low / 0x80_0000 == j + 1);
        assert(low % 0x80_0000 == m - 0x80_0000);
        if low < 0x7F80_0000 {
            lemma_pow2_adds(24, j);
            lemma_pow2_monotone(24 + j, 277);
            assert(m * pj < pow2(24) * pj) by (nonlinear_arith)
                requires
                    m < pow2(24),
                    pj > 0,
            ;
        } else {
            lemma_pow2_adds(23, j);
            lemma_pow2_monotone(277, 23 + j);
            assert(m * pj >= pow2(23) * pj) by (nonlinear_arith)
                requires
                    m >= pow2(23),
                    pj > 0,
            ;
        }
    } else {
        assert(low / 0x80_0000 == j + 2);
        assert(low % 0x80_0000 == 0);
        lemma_pow2_adds(24, j);
        lemma_pow2_unfold(j + 1);
        if low < 0x7F80_0000 {
            lemma_pow2_strictly_increases(24 + j, 277);
            assert(0x80_0000 * pow2(j + 1) == m * pj) by (nonlinear_arith)
                requires
                    pow2(j + 1) == 2 * pj,
                    m == 0x100_0000,
            ;
        } else {
            lemma_pow2_monotone(277, 24 + j);
        }
    }
}

/// Among the patterns up to that of infinity, a higher pattern stands for a higher magnitude.
pub proof fn lemma_pattern_monotone(a: nat, b: nat)
    requires
        a < b <= 0x7F80_0000,
    ensures
        pattern_magnitude(a) < pattern_magnitude(b),
{
    lemma2_to64();
    let ea: nat = a / 0x80_0000;
    let fa: nat = a % 0x80_0000;
    let eb: nat = b / 0x80_0000;
    let fb: nat = b % 0x80_0000;
    assert(ea <= eb);
    if ea == eb {
        if ea > 0 {
            let pe: nat = pow2((ea - 1) as nat);
            lemma_pow2_pos((ea - 1) as nat);
            assert((0x80_0000 + fa) * pe < (0x80_0000 + fb) * pe) by (nonlinear_arith)
                requires
                    fa < fb,
                    pe > 0,
            ;
        }
    } else {
        let pb: nat = pow2((eb - 1) as nat);
        lemma_pow2_pos((eb - 1) as nat);
        assert((0x80_0000 + fb) * pb >= 0x80_0000 * pb) by (nonlinear_arith)
            requires
                fb >= 0,
                pb > 0,
        ;
        if ea == 0 {
            assert(0x80_0000 * pb >= 0x80_0000) by (nonlinear_arith)
                requires
                    pb >= 1,
            ;
        } else {
            let pa: nat = pow2((ea - 1) as nat);
            lemma_pow2_pos((ea - 1) as nat);
            lemma_pow2_unfold(ea);
            lemma_pow2_monotone(ea, (eb - 1) as nat);
            assert((0x80_0000 + fa) * pa < 0x80_0000 * pb) by (nonlinear_arith)
                requires
                    fa < 0x80_0000,
                    pa > 0,
                    2 * pa <= pb,
            ;
        }
    }
}

/// Two singles that stand for the same number have the same pattern: what a contract says of
/// a number that a function returns, it says of every bit of it.
pub proof fn law_numbers_have_one_pattern(a: Single, b: Single)
    requires
        !a@.is_nan(),
        a@ == b@,
    ensures
        a.bits == b.bits,
{
    let la: nat = (a.bits % 0x8000_0000) as nat;
    let lb: nat = (b.bits % 0x8000_0000) as nat;
    if la < lb {
        lemma_pattern_monotone(la, lb);
    }
    if lb < la {
        lemma_pattern_monotone(lb, la);
    }
}

impl Single {
    /// The single of the given pattern.
    pub fn from_bits(bits: u32) -> (r: Single)
        ensures
            r.bits == bits,
    {
        Single { bits }
    }

    /// The pattern.
    pub fn to_bits(self) -> (bits: u32)
        ensures
            bits == self.bits,
    {
        self.bits
    }

    /// The zero of the given sign.
    pub fn zero(negative: bool) -> (r: Single)
        ensures
            r@ == (Value::Number { negative, magnitude: 0 }),
            r.bits == (if negative { 0x8000_0000u32 } else { 0u32 }),
    {
        if negative {
            Single { bits: 0x8000_0000 }
        } else {
            Single { bits: 0 }
        }
    }

    /// 1.0, or -1.0.
    pub fn one(negative: bool) -> (r: Single)
        ensures
            r@ == (Value::Number { negative, magnitude: unit() }),
            r.bits == (if negative { 0xBF80_0000u32 } else { 0x3F80_0000u32 }),
    {
        proof {
            lemma_pattern_landmarks();
        }
        if negative {
            Single { bits: 0xBF80_0000 }
        } else {
            Single { bits: 0x3F80_0000 }
        }
    }

    /// The infinity of the given sign.
    pub fn infinite(negative: bool) -> (r: Single)
        ensures
            r@ == (Value::Number { negative, magnitude: infinity() }),
    {
        proof {
            lemma_pattern_landmarks();
        }
        if negative {
            Single { bits: 0xFF80_0000 }
        } else {
            Single { bits: 0x7F80_0000 }
        }
    }

    /// The quiet NaN that the arithmetic of this library returns.
    pub fn nan() -> (r: Single)
        ensures
            r@ == Value::Nan,
            r.bits == 0x7FC0_0000u32,
    {
        Single { bits: 0x7FC0_0000 }
    }

    /// Whether this is no number.
    pub fn is_nan(self) -> (b: bool)
        ensures
            b == self@.is_nan(),
    {
        self.bits % 0x8000_0000 > 0x7F80_0000
    }

    /// Whether this is an infinite number.
    pub fn is_infinite(self) -> (b: bool)
        ensures
            b == self@.is_infinite(),
    {
        proof {
            lemma_pattern_landmarks();
            if self.bits % 0x8000_0000 < 0x7F80_0000 {
                lemma_pattern_monotone((self.bits % 0x8000_0000) as nat, 0x7F80_0000);
            }
        }
        self.bits % 0x8000_0000 == 0x7F80_0000
    }

    /// Whether this is a finite number.
    pub fn is_finite(self) -> (b: bool)
        ensures
            b == self@.is_finite(),
    {
        proof {
            lemma_pattern_landmarks();
            if self.bits % 0x8000_0000 < 0x7F80_0000 {
                lemma_pattern_monotone((self.bits % 0x8000_0000) as nat, 0x7F80_0000);
            }
        }
        self.bits % 0x8000_0000 < 0x7F80_0000
    }

    /// Whether the sign bit is set; it may be set on a zero and on a NaN.
    pub fn is_sign_negative(self) -> (b: bool)
        ensures
            b == (self.bits >= 0x8000_0000u32),
            !self@.is_nan() ==> b == self@.negative(),
    {
        self.bits >= 0x8000_0000
    }

    /// The number with its sign turned.
    pub fn neg(self) -> (r: Single)
        ensures
            r@ == self@.negated(),
    {
        if self.bits >= 0x8000_0000 {
            Single { bits: self.bits - 0x8000_0000 }
        } else {
            Single { bits: self.bits + 0x8000_0000 }
        }
    }

    /// `self < rhs`, as numbers.
    pub fn lt(self, rhs: Single) -> (b: bool)
        ensures
            b == self@.less(rhs@),
    {
        if self.is_nan() || rhs.is_nan() {
            return false;
        }
        let a: u32 = self.bits % 0x8000_0000;
        let b: u32 = rhs.bits % 0x8000_0000;
        proof {
            if a < b {
                lemma_pattern_monotone(a as nat, b as nat);
            }
            if b < a {
                lemma_pattern_monotone(b as nat, a as nat);
            }
            if 0 < a {
                lemma_pattern_monotone(0, a as nat);
            }
            if 0 < b {
                lemma_pattern_monotone(0, b as nat);
            }
        }
        if self.bits >= 0x8000_0000 {
            if rhs.bits >= 0x8000_0000 {
                b < a
            } else {
                a != 0 || b != 0
            }
        } else {
            if rhs.bits >= 0x8000_0000 {
                false
            } else {
                a < b
            }
        }
    }

    /// `self` held between `lo` and `hi`; a NaN stays a NaN.
    pub fn clamp(self, lo: Single, hi: Single) -> (r: Single)
        requires
            !lo@.is_nan(),
            !hi@.is_nan(),
            !hi@.less(lo@),
        ensures
            r@ == self@.clamped(lo@, hi@),
            r.bits == self.bits || r.bits == lo.bits || r.bits == hi.bits,
    {
        if self.lt(lo) {
            lo
        } else if hi.lt(self) {
            hi
        } else {
            self
        }
    }
}

} // verus!
