use crate::rounding::{
    lemma_binade_bounds, lemma_grid_parts, lemma_parts_on_grid, lemma_pow2_monotone,
    lemma_rne_exact, lemma_rne_on_grid, lemma_rne_trunc, lemma_rne_upper, lemma_rne_zero,
    on_grid, spacing_exp, trunc_even,
};
use crate::single::{lemma_pattern_landmarks, lemma_pattern_monotone, Single};
use crate::value::{binade, infinity, rne, unit, Value};
use vstd::arithmetic::power2::{
    lemma2_to64, lemma_pow2_adds, lemma_pow2_pos, lemma_pow2_strictly_increases, pow2,
};
use vstd::prelude::*;

verus! {

impl Value {
    /// Whether a single can stand for this value: a NaN, or a number on the grid up to
    /// infinity.
    pub open spec fn is_single(self) -> bool {
        self.is_nan() || (self.magnitude() <= infinity() && on_grid(self.magnitude()))
    }
}

/// A signed count of steps, rounded to the nearest one that a single with unbounded exponent
/// can stand for.
pub open spec fn round_signed(s: int) -> int {
    if s >= 0 {
        rne(s as nat, 1) as int
    } else {
        -(rne((-s) as nat, 1) as int)
    }
}

/// The largest finite magnitude.
pub open spec fn largest() -> nat {
    (pow2(277) - pow2(253)) as nat
}

/// 1.0 lies on the grid, below infinity, and infinity lies on the grid.
pub proof fn lemma_landmarks_on_grid()
    ensures
        0 < unit() < infinity(),
        on_grid(0),
        on_grid(unit()),
        on_grid(infinity()),
        Value::zero().is_single(),
        Value::one(false).is_single(),
        Value::one(true).is_single(),
        largest() < infinity(),
        on_grid(largest()),
        largest() == 0xFF_FFFF * pow2(253),
{
    lemma2_to64();
    lemma_pow2_pos(149);
    lemma_pow2_pos(253);
    lemma_pow2_strictly_increases(149, 277);
    lemma_parts_on_grid(0, 0);
    lemma_parts_on_grid(0x80_0000, 126);
    lemma_parts_on_grid(0x80_0000, 254);
    lemma_parts_on_grid(0xFF_FFFF, 253);
    lemma_pow2_adds(23, 126);
    lemma_pow2_adds(23, 254);
    lemma_pow2_adds(24, 253);
    assert(0 * pow2(0) == 0);
    assert(0xFF_FFFF * pow2(253) == pow2(24) * pow2(253) - pow2(253)) by (nonlinear_arith)
        requires
            pow2(24) == 0x100_0000,
    ;
}

/// Every single stands for a value that a single can stand for.
pub proof fn lemma_view_is_single(s: Single)
    ensures
        s@.is_single(),
{
    let low: nat = (s.bits % 0x8000_0000) as nat;
    if low <= 0x7F80_0000 {
        let e: nat = low / 0x80_0000;
        let f: nat = low % 0x80_0000;
        lemma2_to64();
        lemma_pattern_landmarks();
        if low < 0x7F80_0000 {
            lemma_pattern_monotone(low, 0x7F80_0000);
        }
        if e == 0 {
            lemma_parts_on_grid(f, 0);
            assert(f * pow2(0) == f);
        } else {
            lemma_parts_on_grid(0x80_0000 + f, (e - 1) as nat);
        }
    }
}

/// A finite magnitude on the grid is at most the largest one.
pub proof fn lemma_finite_bound(r: nat)
    requires
        on_grid(r),
        r < infinity(),
    ensures
        r <= largest(),
{
    let k: nat = binade(r);
    let pk: nat = pow2(k);
    let m: nat = r / pk;
    lemma2_to64();
    lemma_grid_parts(r);
    lemma_binade_bounds(r);
    lemma_pow2_pos(k);
    lemma_landmarks_on_grid();
    if k > 253 {
        lemma_pow2_monotone(277, 23 + k);
    } else {
        lemma_pow2_monotone(k, 253);
        assert(m * pk <= 0xFF_FFFF * pow2(253)) by (nonlinear_arith)
            requires
                m <= 0xFF_FFFF,
                pk <= pow2(253),
        ;
    }
}

/// A magnitude that passes the largest finite one by less than a quarter of the spacing
/// there still rounds to it.
pub proof fn lemma_rne_largest(n: nat)
    requires
        n <= largest() + unit(),
    ensures
        rne(n, 1) <= largest(),
{
    lemma_landmarks_on_grid();
    if n <= largest() {
        assert(n <= largest() * 1);
        lemma_rne_upper(n, 1, largest());
    } else {
        let p: nat = 0x3FF_FFFC;
        let px: nat = pow2(251);
        lemma2_to64();
        lemma_pow2_adds(2, 251);
        lemma_pow2_strictly_increases(149, 251);
        assert(p * (px * 1) < n * pow2(0) && n * pow2(0) < (p + 1) * (px * 1)) by (nonlinear_arith)
            requires
                p == 0x3FF_FFFC,
                pow2(0) == 1,
                largest() == 0xFF_FFFF * pow2(253),
                pow2(253) == 4 * px,
                largest() < n,
                n <= largest() + unit(),
                unit() < px,
        ;
        lemma_rne_trunc(n, 1, p, 26, 251, 0, true);
        assert(spacing_exp(26 + 251 - 0) == 253);
        assert(p / 4 == 0xFF_FFFF && p % 4 == 0);
        assert(trunc_even(p, 2, true) == 0xFF_FFFF);
    }
}

/// Multiplying or dividing by 1.0 changes nothing.
pub proof fn lemma_one_is_neutral(v: Value)
    requires
        v.is_single(),
    ensures
        v.product(Value::one(false)) == v,
        v.quotient(Value::one(false)) == v,
{
    lemma_landmarks_on_grid();
    if !v.is_nan() && v.is_finite() {
        lemma_rne_exact(v.magnitude(), unit());
    }
}

/// Adding a zero to a finite number, or taking one off, leaves the number as it is; only the
/// sign of a zero may change.
pub proof fn lemma_zero_is_neutral(v: Value, z: Value)
    requires
        v.is_single(),
        v.is_finite(),
        z.is_zero(),
    ensures
        v.sum(z) == (if v.is_zero() {
            Value::Number { negative: v.negative() && z.negative(), magnitude: 0 }
        } else {
            v
        }),
        z.sum(v) == v.sum(z),
        v.difference(z) == v.sum(z.negated()),
        z.negated().is_zero(),
{
    lemma_landmarks_on_grid();
    lemma_rne_exact(v.magnitude(), 1);
    assert(v.magnitude() * 1 == v.magnitude());
}

/// A finite number times a zero is a zero.
pub proof fn lemma_zero_absorbs(v: Value, z: Value)
    requires
        v.is_finite(),
        z.is_zero(),
    ensures
        v.product(z) == (Value::Number { negative: v.negative() != z.negative(), magnitude: 0 }),
        z.product(v) == (Value::Number { negative: v.negative() != z.negative(), magnitude: 0 }),
{
    lemma_landmarks_on_grid();
    lemma_rne_zero(unit());
    assert(v.magnitude() * 0 == 0);
    assert(0 * v.magnitude() == 0);
}

/// What the arithmetic returns for singles is a value that a single can stand for.
pub proof fn lemma_results_are_single(a: Value, b: Value)
    requires
        a.is_single(),
        b.is_single(),
    ensures
        a.negated().is_single(),
        a.sum(b).is_single(),
        a.difference(b).is_single(),
        a.product(b).is_single(),
        a.quotient(b).is_single(),
{
    lemma_landmarks_on_grid();
    let s: int = a.signed() + b.signed();
    lemma_rne_on_grid((if s < 0 { -s } else { s }) as nat, 1);
    let t: int = a.signed() - b.signed();
    lemma_rne_on_grid((if t < 0 { -t } else { t }) as nat, 1);
    lemma_rne_on_grid(a.magnitude() * b.magnitude(), unit());
    if b.magnitude() > 0 {
        lemma_rne_on_grid(a.magnitude() * unit(), b.magnitude());
    }
}

/// Taking a finite number off one between -1 and 1 gives a finite number.
pub proof fn lemma_difference_is_finite(w: Value, x: Value)
    requires
        w.is_single(),
        x.is_single(),
        x.is_finite(),
        !w.is_nan(),
        w.magnitude() <= unit(),
    ensures
        w.difference(x).is_finite(),
{
    lemma_landmarks_on_grid();
    lemma_finite_bound(x.magnitude());
    let s: int = w.signed() - x.signed();
    let n: nat = (if s < 0 { -s } else { s }) as nat;
    lemma_rne_largest(n);
}

} // verus!
