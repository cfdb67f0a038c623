use crate::algebra::{
    lemma_difference_is_finite, lemma_landmarks_on_grid, lemma_one_is_neutral,
    lemma_results_are_single, lemma_view_is_single, lemma_zero_absorbs, lemma_zero_is_neutral,
};
use crate::params::Snapshot;
use crate::algebra::{largest, lemma_finite_bound, round_signed};
use crate::rounding::{
    lemma_parts_on_grid, lemma_pow2_monotone, lemma_rne_error, lemma_rne_exact,
    lemma_rne_monotone, lemma_rne_near_unit, lemma_rne_upper, lemma_rne_zero, on_grid,
};
use crate::value::rne;
use vstd::arithmetic::power2::{lemma2_to64, lemma_pow2_adds, lemma_pow2_unfold, pow2};
use crate::single::Single;
use crate::transform::{distort_value, lerp_value, wet_value};
use crate::value::{unit, Value};
use vstd::prelude::*;

verus! {

/// What `x * 1 + 0 - 0` divided by 1 comes to: `x`, but that a negative zero may have turned
/// positive.
pub proof fn lemma_round_trip_with_nothing(x: Value, add: Value)
    requires
        x.is_single(),
        x.is_finite(),
        add.is_zero(),
    ensures
        ({
            let back: Value = x.product(Value::one(false)).sum(add).difference(add).quotient(
                Value::one(false),
            );
            &&& back.is_single()
            &&& back.is_finite()
            &&& back.magnitude() == x.magnitude()
            &&& !x.is_zero() ==> back == x
            &&& x.is_zero() ==> back == Value::zero() || back == x
        }),
{
    let one: Value = Value::one(false);
    let x1: Value = x.product(one);
    lemma_one_is_neutral(x);
    let x2: Value = x1.sum(add);
    lemma_zero_is_neutral(x1, add);
    let x3: Value = x2.difference(add);
    lemma_zero_is_neutral(x2, add);
    lemma_zero_is_neutral(x2, add.negated());
    lemma_one_is_neutral(x3);
}

/// With nothing added and a factor of 1.0, outside residue mode, a sample between -1 and 1
/// comes out as it went in, whatever the mix; only a negative zero may come out positive.
pub proof fn law_identity(x: Single, s: Snapshot)
    requires
        x@.is_finite(),
        x@.magnitude() <= unit(),
        s.add_amount@.is_zero(),
        s.mult_amount@ == Value::one(false),
        !s.residue,
        !s.wet_dry@.is_nan(),
    ensures
        !distort_value(x@, s).is_nan(),
        distort_value(x@, s).signed() == x@.signed(),
        !x@.is_zero() ==> distort_value(x@, s) == x@,
{
    let v: Value = x@;
    lemma_view_is_single(x);
    lemma_landmarks_on_grid();
    lemma_round_trip_with_nothing(v, s.add_amount@);
    let w: Value = wet_value(v, s.add_amount@, s.mult_amount@, false);
    assert(w.magnitude() == v.magnitude() && !w.is_nan());
    let d: Value = w.difference(v);
    assert(d.is_zero());
    let t: Value = s.wet_dry@.clamped(Value::zero(), Value::one(false));
    assert(t.is_finite());
    lemma_zero_absorbs(t, d);
    lemma_zero_is_neutral(v, d.product(t));
}

/// In residue mode, with nothing added and a factor of 1.0, the processed signal of every
/// finite sample is positive zero.
pub proof fn law_residue_is_silent(x: Single, add: Single, mult: Single)
    requires
        x@.is_finite(),
        add@.is_zero(),
        mult@ == Value::one(false),
    ensures
        wet_value(x@, add@, mult@, true) == Value::zero(),
{
    let v: Value = x@;
    lemma_view_is_single(x);
    lemma_landmarks_on_grid();
    lemma_round_trip_with_nothing(v, add@);
    let one: Value = Value::one(false);
    let x2: Value = v.product(one).sum(add@);
    lemma_one_is_neutral(v);
    lemma_zero_is_neutral(v, add@);
    lemma_zero_is_neutral(x2, add@.negated());
    lemma_one_is_neutral(x2.difference(add@));
}

/// With a mix of zero, every finite sample comes out as it went in, whatever the other
/// controls are; only a negative zero may come out positive.
pub proof fn law_dry_keeps_the_input(x: Single, s: Snapshot)
    requires
        x@.is_finite(),
        s.wet_dry@.is_zero(),
    ensures
        !distort_value(x@, s).is_nan(),
        distort_value(x@, s).signed() == x@.signed(),
        !x@.is_zero() ==> distort_value(x@, s) == x@,
{
    let v: Value = x@;
    let w: Value = wet_value(v, s.add_amount@, s.mult_amount@, s.residue);
    lemma_view_is_single(x);
    lemma_landmarks_on_grid();
    lemma_wet_is_bounded(x, s.add_amount, s.mult_amount, s.residue);
    lemma_difference_is_finite(w, v);
    let d: Value = w.difference(v);
    let t: Value = s.wet_dry@.clamped(Value::zero(), Value::one(false));
    assert(t == s.wet_dry@);
    lemma_zero_absorbs(d, t);
    lemma_zero_is_neutral(v, d.product(t));
}

/// The processed signal of a finite sample is a number between -1 and 1.
pub proof fn lemma_wet_is_bounded(x: Single, add: Single, mult: Single, residue: bool)
    requires
        x@.is_finite(),
    ensures
        wet_value(x@, add@, mult@, residue).is_single(),
        !wet_value(x@, add@, mult@, residue).is_nan(),
        wet_value(x@, add@, mult@, residue).magnitude() <= unit(),
{
    let v: Value = x@;
    lemma_view_is_single(x);
    lemma_view_is_single(add);
    lemma_view_is_single(mult);
    lemma_landmarks_on_grid();
    let up: Value = v.product(mult@).sum(add@);
    lemma_results_are_single(v, mult@);
    lemma_results_are_single(v.product(mult@), add@);
    lemma_results_are_single(up, add@);
    let back: Value = up.difference(add@).quotient(mult@);
    lemma_results_are_single(up.difference(add@), mult@);
    lemma_results_are_single(back, v);
}

/// With a mix of 1.0 the output is the processed signal with the input taken off and put on
/// again, each step rounded. Where the first step is exact, that is the processed signal
/// itself; only a negative zero may come out positive.
pub proof fn law_wet_is_the_processed_signal(x: Single, s: Snapshot)
    requires
        x@.is_finite(),
        s.wet_dry@ == Value::one(false),
    ensures
        ({
            let w: Value = wet_value(x@, s.add_amount@, s.mult_amount@, s.residue);
            let exact: int = w.signed() - x@.signed();
            &&& distort_value(x@, s) == w.difference(x@).sum(x@)
            &&& on_grid((if exact < 0 { -exact } else { exact }) as nat) ==> distort_value(x@, s).signed()
                == w.signed() && !distort_value(x@, s).is_nan()
        }),
{
    let v: Value = x@;
    let w: Value = wet_value(v, s.add_amount@, s.mult_amount@, s.residue);
    lemma_view_is_single(x);
    lemma_landmarks_on_grid();
    lemma_wet_is_bounded(x, s.add_amount, s.mult_amount, s.residue);
    lemma_results_are_single(w, v);
    let d: Value = w.difference(v);
    lemma_one_is_neutral(d);
    let exact: int = w.signed() - v.signed();
    let n: nat = (if exact < 0 { -exact } else { exact }) as nat;
    if on_grid(n) {
        lemma_difference_is_finite(w, v);
        lemma_rne_exact(n, 1);
        assert(n * 1 == n);
        assert(d.signed() == exact);
        lemma_rne_exact(w.magnitude(), 1);
        assert(w.magnitude() * 1 == w.magnitude());
    }
}

/// The mixing fraction, once it is held to `[0, 1]`: a number from zero to one, negative only
/// where it is a zero.
pub proof fn lemma_fraction_is_bounded(t: Value)
    requires
        !t.is_nan(),
    ensures
        !t.clamped(Value::zero(), Value::one(false)).is_nan(),
        t.clamped(Value::zero(), Value::one(false)).magnitude() <= unit(),
        t.clamped(Value::zero(), Value::one(false)).negative() ==> t.clamped(
            Value::zero(),
            Value::one(false),
        ).magnitude() == 0,
{
}

/// A finite number times a fraction from zero to one is no larger than the number.
pub proof fn lemma_scaled_is_no_larger(d: Value, t: Value)
    requires
        d.is_single(),
        d.is_finite(),
        !t.is_nan(),
        t.magnitude() <= unit(),
    ensures
        d.product(t).is_finite(),
        d.product(t).magnitude() <= d.magnitude(),
        d.product(t).negative() == (d.negative() != t.negative()),
{
    lemma_landmarks_on_grid();
    let a: nat = d.magnitude();
    let b: nat = t.magnitude();
    assert(a * b <= a * unit()) by (nonlinear_arith)
        requires
            b <= unit(),
    ;
    lemma_rne_upper(a * b, unit(), a);
}

/// Twice 1.0 lies on the grid, and four times 1.0 is finite.
pub proof fn lemma_small_multiples()
    ensures
        on_grid(2 * unit()),
        4 * unit() <= largest(),
{
    lemma_landmarks_on_grid();
    lemma_parts_on_grid(0x80_0000, 127);
    lemma2_to64();
    lemma_pow2_adds(23, 127);
    lemma_pow2_unfold(150);
    lemma_pow2_unfold(151);
    lemma_pow2_monotone(151, 253);
    lemma_pow2_adds(24, 253);
}

/// The rounded difference between a number `w` between -1 and 1 and a finite number `v`: it
/// lies on the side of `w` as seen from `v`, and within 2.0 where `v` lies between -1 and 1.
pub proof fn lemma_difference_side(w: Value, v: Value)
    requires
        v.is_single(),
        v.is_finite(),
        w.is_single(),
        !w.is_nan(),
        w.magnitude() <= unit(),
    ensures
        w.difference(v).is_single(),
        w.difference(v).is_finite(),
        w.difference(v).magnitude() <= largest(),
        v.magnitude() <= unit() ==> w.difference(v).magnitude() <= 2 * unit(),
        v.signed() > unit() ==> w.difference(v).signed() <= 0,
        v.signed() < -unit() ==> w.difference(v).signed() >= 0,
{
    lemma_landmarks_on_grid();
    lemma_small_multiples();
    lemma_difference_is_finite(w, v);
    lemma_results_are_single(w, v);
    lemma_finite_bound(w.difference(v).magnitude());
    if v.magnitude() <= unit() {
        let gap: int = w.signed() - v.signed();
        let m: nat = (if gap < 0 { -gap } else { gap }) as nat;
        assert(m <= (2 * unit()) * 1);
        lemma_rne_upper(m, 1, 2 * unit());
    }
}

/// The mix of a finite number with one between -1 and 1 is finite.
pub proof fn lemma_mix_is_finite(v: Value, w: Value, t: Value)
    requires
        v.is_single(),
        v.is_finite(),
        w.is_single(),
        !w.is_nan(),
        w.magnitude() <= unit(),
        !t.is_nan(),
    ensures
        lerp_value(v, w, t).is_finite(),
{
    lemma_landmarks_on_grid();
    lemma_small_multiples();
    lemma_difference_side(w, v);
    let d: Value = w.difference(v);
    let f: Value = t.clamped(Value::zero(), Value::one(false));
    lemma_fraction_is_bounded(t);
    lemma_scaled_is_no_larger(d, f);
    let p: Value = d.product(f);
    if f.magnitude() == 0 {
        lemma_zero_absorbs(d, f);
    }
    lemma_finite_bound(v.magnitude());
    let exact: int = p.signed() + v.signed();
    let n: nat = (if exact < 0 { -exact } else { exact }) as nat;
    assert(n <= largest() * 1);
    lemma_rne_upper(n, 1, largest());
}

/// For every finite sample and every mix that is a number, the output is finite, whatever the
/// other controls are.
pub proof fn law_output_is_finite(x: Single, s: Snapshot)
    requires
        x@.is_finite(),
        !s.wet_dry@.is_nan(),
    ensures
        distort_value(x@, s).is_finite(),
{
    lemma_view_is_single(x);
    lemma_wet_is_bounded(x, s.add_amount, s.mult_amount, s.residue);
    lemma_mix_is_finite(
        x@,
        wet_value(x@, s.add_amount@, s.mult_amount@, s.residue),
        s.wet_dry@,
    );
}

/// The mix of two numbers between -1 and 1 does not pass 1: from a sample `x`, a processed
/// signal `w` and a share `p` of their rounded difference, `p + x` rounds to 1 at most.
pub proof fn lemma_mix_upper(x: int, w: int, p: int)
    requires
        -unit() <= x <= unit(),
        w <= unit(),
        (0 <= p <= round_signed(w - x)) || (round_signed(w - x) <= p <= 0),
    ensures
        round_signed(p + x) <= unit(),
{
    let u: nat = unit();
    lemma_landmarks_on_grid();
    if p + x <= u {
        if p + x >= 0 {
            assert((p + x) as nat <= u * 1);
            lemma_rne_upper((p + x) as nat, 1, u);
        }
    } else {
        let e: nat = (u - x) as nat;
        lemma_rne_zero(1);
        assert(w - x > 0);
        lemma_rne_monotone((w - x) as nat, e);
        let dstar: nat = rne(e, 1);
        lemma_pow2_unfold(150);
        if e < pow2(150) {
            lemma_rne_error(e, 126);
        } else {
            lemma2_to64();
            lemma_parts_on_grid(0x80_0000, 127);
            lemma_pow2_adds(23, 127);
            lemma_rne_exact(e, 1);
            assert(e * 1 == e);
        }
        lemma_rne_monotone((p + x) as nat, (dstar + x) as nat);
        lemma_rne_near_unit((dstar + x) as nat);
    }
}

/// The sum of two finite numbers, where it is finite, is their exact sum rounded.
pub proof fn lemma_sum_signed(a: Value, b: Value)
    requires
        a.is_finite(),
        b.is_finite(),
        a.sum(b).is_finite(),
    ensures
        a.sum(b).signed() == round_signed(a.signed() + b.signed()),
{
    lemma_rne_zero(1);
}

/// Rounding treats a count of steps and its negative alike.
pub proof fn lemma_round_signed_odd(s: int)
    ensures
        round_signed(-s) == -round_signed(s),
{
    lemma_rne_zero(1);
}

/// How the mix comes about, in signed steps: a share `p` of the rounded difference between
/// the processed signal and the sample is put on the sample, and the sum is rounded.
pub proof fn lemma_mix_steps(v: Value, w: Value, t: Value) -> (p: int)
    requires
        v.is_single(),
        v.is_finite(),
        w.is_single(),
        !w.is_nan(),
        w.magnitude() <= unit(),
        !t.is_nan(),
        lerp_value(v, w, t).is_finite(),
    ensures
        (0 <= p <= round_signed(w.signed() - v.signed())) || (round_signed(w.signed() - v.signed())
            <= p <= 0),
        lerp_value(v, w, t).signed() == round_signed(p + v.signed()),
{
    lemma_landmarks_on_grid();
    lemma_difference_is_finite(w, v);
    lemma_results_are_single(w, v);
    let d: Value = w.difference(v);
    let f: Value = t.clamped(Value::zero(), Value::one(false));
    lemma_fraction_is_bounded(t);
    lemma_scaled_is_no_larger(d, f);
    let p: Value = d.product(f);
    if f.magnitude() == 0 {
        lemma_zero_absorbs(d, f);
    }
    lemma_sum_signed(w, v.negated());
    lemma_sum_signed(p, v);
    p.signed()
}

/// For every sample between -1 and 1 and every mix that is a number, the output lies between
/// -1 and 1, whatever the other controls are.
pub proof fn law_output_is_bounded(x: Single, s: Snapshot)
    requires
        x@.is_finite(),
        x@.magnitude() <= unit(),
        !s.wet_dry@.is_nan(),
    ensures
        !distort_value(x@, s).is_nan(),
        distort_value(x@, s).magnitude() <= unit(),
{
    let v: Value = x@;
    let w: Value = wet_value(v, s.add_amount@, s.mult_amount@, s.residue);
    law_output_is_finite(x, s);
    lemma_view_is_single(x);
    lemma_wet_is_bounded(x, s.add_amount, s.mult_amount, s.residue);
    let p: int = lemma_mix_steps(v, w, s.wet_dry@);
    lemma_round_signed_odd(w.signed() - v.signed());
    lemma_round_signed_odd(p + v.signed());
    lemma_mix_upper(v.signed(), w.signed(), p);
    lemma_mix_upper(-v.signed(), -w.signed(), -p);
}

} // verus!
