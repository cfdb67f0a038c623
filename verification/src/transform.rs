use crate::params::Snapshot;
use crate::single::Single;
use crate::value::Value;
use vstd::prelude::*;

verus! {

/// The point between `start` and `end` that the fraction `t` picks, `t` held to `[0, 1]`:
/// `(end - start) * t + start`, each step rounded.
pub open spec fn lerp_value(start: Value, end: Value, t: Value) -> Value {
    end.difference(start).product(t.clamped(Value::zero(), Value::one(false))).sum(start)
}

/// The processed signal for the sample `x`: `x` is multiplied and shifted up, shifted down and
/// divided again, each step rounded; in residue mode `x` is taken off the result. A result
/// that is not finite gives way to `x`, and what is left is held to `[-1, 1]`.
pub open spec fn wet_value(x: Value, add: Value, mult: Value, residue: bool) -> Value {
    let up: Value = x.product(mult).sum(add);
    let back: Value = up.difference(add).quotient(mult);
    let out: Value = if residue {
        back.difference(x)
    } else {
        back
    };
    let safe: Value = if out.is_finite() {
        out
    } else {
        x
    };
    safe.clamped(Value::one(true), Value::one(false))
}

/// The output for the sample `x` under the snapshot `s`.
pub open spec fn distort_value(x: Value, s: Snapshot) -> Value {
    lerp_value(x, wet_value(x, s.add_amount@, s.mult_amount@, s.residue), s.wet_dry@)
}

/// Linear interpolation from `start` to `end` by the fraction `t`, which is held to `[0, 1]`.
pub fn lerp(start: Single, end: Single, t: Single) -> (r: Single)
    ensures
        r@ == lerp_value(start@, end@, t@),
{
    let fraction: Single = t.clamp(Single::zero(false), Single::one(false));
    end.sub(start).mul(fraction).add(start)
}

/// The processed signal for one sample, before it is mixed with the input.
pub fn wet(x: Single, add: Single, mult: Single, residue: bool) -> (r: Single)
    ensures
        r@ == wet_value(x@, add@, mult@, residue),
{
    let up: Single = x.mul(mult).add(add);
    let back: Single = up.sub(add).div(mult);
    let out: Single = if residue {
        back.sub(x)
    } else {
        back
    };
    let safe: Single = if out.is_finite() {
        out
    } else {
        x
    };
    safe.clamp(Single::one(true), Single::one(false))
}

/// The output for one sample under one snapshot of the controls.
pub fn distort(x: Single, s: &Snapshot) -> (r: Single)
    ensures
        r@ == distort_value(x@, *s),
{
    lerp(x, wet(x, s.add_amount, s.mult_amount, s.residue), s.wet_dry)
}

} // verus!
