use crate::single::{lemma_pattern_landmarks, pattern_magnitude, Single};
use crate::value::{unit, Value};
use vstd::arithmetic::power2::{lemma2_to64, lemma_pow2_adds, lemma_pow2_pos, pow2};
use vstd::prelude::*;

verus! {

/// The four control values as one sub-block sees them.
#[derive(Clone, Copy, Debug)]
pub struct Snapshot {
    /// The share of the processed signal in the output, as a fraction.
    pub wet_dry: Single,
    /// What is added to a sample and taken off again.
    pub add_amount: Single,
    /// What a sample is multiplied by and divided by again.
    pub mult_amount: Single,
    /// Whether only the difference from the input is put out.
    pub residue: bool,
}

/// The positive number of `whole` times 1.0.
pub open spec fn whole_value(whole: nat) -> Value {
    Value::Number { negative: false, magnitude: whole * unit() }
}

/// Whether `v` is a number from `lo` to `hi`.
pub open spec fn between(v: Value, lo: Value, hi: Value) -> bool {
    !v.is_nan() && !v.less(lo) && !hi.less(v)
}

impl Snapshot {
    /// Whether every control lies in the range that is declared for it: the mix in `[0, 1]`,
    /// the amount added in `[0, 4194304]`, the factor in `[1, 1024]`.
    pub open spec fn in_range(self) -> bool {
        &&& between(self.wet_dry@, whole_value(0), whole_value(1))
        &&& between(self.add_amount@, whole_value(0), whole_value(4194304))
        &&& between(self.mult_amount@, whole_value(1), whole_value(1024))
    }
}

/// The shape of a control's range. A skewed range gives more of the control's travel to one
/// end: with a negative skew, to the low end.
#[derive(Clone, Copy, Debug)]
pub enum FloatRange {
    Linear { min: Single, max: Single },
    Skewed { min: Single, max: Single, skew: Single },
}

impl FloatRange {
    /// The lower bound.
    pub open spec fn lower(self) -> Single {
        match self {
            FloatRange::Linear { min, .. } => min,
            FloatRange::Skewed { min, .. } => min,
        }
    }

    /// The upper bound.
    pub open spec fn upper(self) -> Single {
        match self {
            FloatRange::Linear { max, .. } => max,
            FloatRange::Skewed { max, .. } => max,
        }
    }

    /// Whether the bounds are numbers in their order.
    pub open spec fn valid(self) -> bool {
        !self.lower()@.is_nan() && !self.upper()@.is_nan() && !self.upper()@.less(self.lower()@)
    }

    /// Whether `v` is a number within the bounds.
    pub open spec fn contains(self, v: Value) -> bool {
        between(v, self.lower()@, self.upper()@)
    }

    /// The lower bound.
    pub fn min(&self) -> (r: Single)
        ensures
            r == self.lower(),
    {
        match self {
            FloatRange::Linear { min, .. } => *min,
            FloatRange::Skewed { min, .. } => *min,
        }
    }

    /// The upper bound.
    pub fn max(&self) -> (r: Single)
        ensures
            r == self.upper(),
    {
        match self {
            FloatRange::Linear { max, .. } => *max,
            FloatRange::Skewed { max, .. } => *max,
        }
    }

    /// `value` held within the bounds; a NaN stays a NaN.
    pub fn clamp(&self, value: Single) -> (r: Single)
        requires
            self.valid(),
        ensures
            r@ == value@.clamped(self.lower()@, self.upper()@),
            !value@.is_nan() ==> self.contains(r@),
    {
        value.clamp(self.min(), self.max())
    }
}

/// How a control's value is shown.
#[derive(Clone, Copy, Debug, PartialEq, Eq, Structural)]
pub enum FloatDisplay {
    /// The number as it is.
    Raw,
    /// The number times a hundred, with one decimal.
    Percent,
}

/// A control with a number for its value.
#[derive(Clone, Copy, Debug)]
pub struct FloatParam {
    pub name: &'static str,
    pub unit: &'static str,
    pub default: Single,
    pub range: FloatRange,
    pub display: FloatDisplay,
    pub value: Single,
}

impl FloatParam {
    /// Whether the range is in order and holds the default.
    pub open spec fn valid(&self) -> bool {
        self.range.valid() && self.range.contains(self.default@)
    }

    /// Whether the value lies in the range.
    pub open spec fn in_range(&self) -> bool {
        self.range.contains(self.value@)
    }

    /// A control at its default, shown raw and without a unit.
    pub fn new(name: &'static str, default: Single, range: FloatRange) -> (r: FloatParam)
        ensures
            r == (FloatParam { name, unit: "", default, range, display: FloatDisplay::Raw, value: default }),
    {
        FloatParam { name, unit: "", default, range, display: FloatDisplay::Raw, value: default }
    }

    /// The control with the unit that is shown behind its value.
    pub fn with_unit(self, unit: &'static str) -> (r: FloatParam)
        ensures
            r == (FloatParam { unit, ..self }),
    {
        FloatParam { unit, ..self }
    }

    /// The control with the way in which its value is shown.
    pub fn with_display(self, display: FloatDisplay) -> (r: FloatParam)
        ensures
            r == (FloatParam { display, ..self }),
    {
        FloatParam { display, ..self }
    }

    /// Takes a new value, held within the range.
    pub fn set_plain_value(&mut self, plain: Single)
        requires
            old(self).range.valid(),
        ensures
            final(self).value@ == plain@.clamped(old(self).range.lower()@, old(self).range.upper()@),
            !plain@.is_nan() ==> final(self).in_range(),
            *final(self) == (FloatParam { value: final(self).value, ..*old(self) }),
    {
        self.value = self.range.clamp(plain);
    }
}

/// A control that is on or off.
#[derive(Clone, Copy, Debug)]
pub struct BoolParam {
    pub name: &'static str,
    pub default: bool,
    pub value: bool,
}

impl BoolParam {
    /// A control at its default.
    pub fn new(name: &'static str, default: bool) -> (r: BoolParam)
        ensures
            r == (BoolParam { name, default, value: default }),
    {
        BoolParam { name, default, value: default }
    }
}

/// 4194304.0, the most that can be added.
pub fn add_limit() -> (r: Single)
    ensures
        r.bits == 0x4A80_0000u32,
        r@ == whole_value(4194304),
{
    proof {
        lemma2_to64();
        lemma_pow2_adds(22, 149);
        lemma_pow2_adds(23, 148);
        assert(pattern_magnitude(0x4A80_0000) == 0x80_0000 * pow2(148));
    }
    Single { bits: 0x4A80_0000 }
}

/// 1024.0, the largest factor.
pub fn mult_limit() -> (r: Single)
    ensures
        r.bits == 0x4480_0000u32,
        r@ == whole_value(1024),
{
    proof {
        lemma2_to64();
        lemma_pow2_adds(10, 149);
        lemma_pow2_adds(23, 136);
        assert(pattern_magnitude(0x4480_0000) == 0x80_0000 * pow2(136));
    }
    Single { bits: 0x4480_0000 }
}

/// A control for a share, from 0.0 to 1.0 on a linear range, shown in percent.
pub fn percent(name: &'static str, default: Single) -> (r: FloatParam)
    ensures
        r == (FloatParam {
            name,
            unit: " %",
            default,
            range: FloatRange::Linear { min: Single { bits: 0 }, max: Single { bits: 0x3F80_0000 } },
            display: FloatDisplay::Percent,
            value: default,
        }),
{
    let range: FloatRange = FloatRange::Linear { min: Single::zero(false), max: Single::one(false) };
    FloatParam::new(name, default, range).with_unit(" %").with_display(FloatDisplay::Percent)
}

/// The controls of the effect.
#[derive(Clone, Copy, Debug)]
pub struct Parameters {
    pub wet_dry: FloatParam,
    pub add_amount: FloatParam,
    pub mult_amount: FloatParam,
    pub residue: BoolParam,
}

impl Parameters {
    /// The controls as they are declared, each at its default: the mix at 1.0 on `[0, 1]`, the
    /// amount added at 0.0 on `[0, 4194304]`, the factor at 1.0 on `[1, 1024]`, both of these
    /// skewed by -1.0 towards the low end, and residue mode off.
    pub open spec fn declared() -> Parameters {
        Parameters {
            wet_dry: FloatParam {
                name: "Wet Dry Mix",
                unit: " %",
                default: Single { bits: 0x3F80_0000 },
                range: FloatRange::Linear {
                    min: Single { bits: 0 },
                    max: Single { bits: 0x3F80_0000 },
                },
                display: FloatDisplay::Percent,
                value: Single { bits: 0x3F80_0000 },
            },
            add_amount: FloatParam {
                name: "Add Amount",
                unit: "",
                default: Single { bits: 0 },
                range: FloatRange::Skewed {
                    min: Single { bits: 0 },
                    max: Single { bits: 0x4A80_0000 },
                    skew: Single { bits: 0xBF80_0000 },
                },
                display: FloatDisplay::Raw,
                value: Single { bits: 0 },
            },
            mult_amount: FloatParam {
                name: "Multiply Amount",
                unit: "",
                default: Single { bits: 0x3F80_0000 },
                range: FloatRange::Skewed {
                    min: Single { bits: 0x3F80_0000 },
                    max: Single { bits: 0x4480_0000 },
                    skew: Single { bits: 0xBF80_0000 },
                },
                display: FloatDisplay::Raw,
                value: Single { bits: 0x3F80_0000 },
            },
            residue: BoolParam { name: "Difference Only", default: false, value: false },
        }
    }

    /// Whether every control is declared in order.
    pub open spec fn valid(&self) -> bool {
        self.wet_dry.valid() && self.add_amount.valid() && self.mult_amount.valid()
    }

    /// The controls' values as a snapshot.
    pub open spec fn snapshot_value(&self) -> Snapshot {
        Snapshot {
            wet_dry: self.wet_dry.value,
            add_amount: self.add_amount.value,
            mult_amount: self.mult_amount.value,
            residue: self.residue.value,
        }
    }

    /// The declared controls, each at its default.
    pub fn new() -> (r: Parameters)
        ensures
            r == Parameters::declared(),
            r.valid(),
            r.snapshot_value().in_range(),
    {
        proof {
            lemma_pattern_landmarks();
            lemma_pow2_pos(149);
            assert(0 * unit() == 0);
            assert(1 * unit() == unit());
            assert(unit() <= 4194304 * unit());
            assert(unit() <= 1024 * unit());
        }
        Parameters {
            wet_dry: percent("Wet Dry Mix", Single::one(false)),
            add_amount: FloatParam::new(
                "Add Amount",
                Single::zero(false),
                FloatRange::Skewed {
                    min: Single::zero(false),
                    max: add_limit(),
                    skew: Single::one(true),
                },
            ),
            mult_amount: FloatParam::new(
                "Multiply Amount",
                Single::one(false),
                FloatRange::Skewed {
                    min: Single::one(false),
                    max: mult_limit(),
                    skew: Single::one(true),
                },
            ),
            residue: BoolParam::new("Difference Only", false),
        }
    }

    /// The values of the four controls, the mix as a fraction: on its range from 0 to 1 the
    /// plain value is the fraction.
    pub fn snapshot(&self) -> (s: Snapshot)
        ensures
            s == self.snapshot_value(),
    {
        Snapshot {
            wet_dry: self.wet_dry.value,
            add_amount: self.add_amount.value,
            mult_amount: self.mult_amount.value,
            residue: self.residue.value,
        }
    }
}

} // verus!
