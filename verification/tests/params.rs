use hardbit::display::{bool_to_yes, format_fixed1, format_percent, hundred};
use hardbit::params::{
    add_limit, mult_limit, percent, BoolParam, FloatDisplay, FloatParam, FloatRange, Parameters,
};
use hardbit::single::Single;

fn single(x: f32) -> Single {
    Single::from_bits(x.to_bits())
}

fn float(x: Single) -> f32 {
    f32::from_bits(x.to_bits())
}

struct Patterns {
    state: u64,
}

impl Patterns {
    fn next(&mut self) -> u32 {
        self.state = self.state.wrapping_mul(6364136223846793005).wrapping_add(1442695040888963407);
        (self.state >> 32) as u32
    }
}

#[test]
fn the_controls_are_declared_with_their_ranges_and_defaults() {
    let p = Parameters::new();
    assert_eq!(p.wet_dry.name, "Wet Dry Mix");
    assert_eq!(p.wet_dry.unit, " %");
    assert_eq!(float(p.wet_dry.default), 1.0);
    assert_eq!(float(p.wet_dry.value), 1.0);
    assert_eq!(p.wet_dry.display, FloatDisplay::Percent);
    match p.wet_dry.range {
        FloatRange::Linear { min, max } => {
            assert_eq!(float(min), 0.0);
            assert_eq!(float(max), 1.0);
        }
        _ => panic!("the mix has a linear range"),
    }
    assert_eq!(p.add_amount.name, "Add Amount");
    assert_eq!(p.add_amount.unit, "");
    assert_eq!(float(p.add_amount.default), 0.0);
    assert_eq!(float(p.add_amount.value), 0.0);
    assert_eq!(p.add_amount.display, FloatDisplay::Raw);
    match p.add_amount.range {
        FloatRange::Skewed { min, max, skew } => {
            assert_eq!(float(min), 0.0);
            assert_eq!(float(max), 1024.0 * 1024.0 * 4.0);
            assert_eq!(float(skew), -1.0);
        }
        _ => panic!("the amount added has a skewed range"),
    }
    assert_eq!(p.mult_amount.name, "Multiply Amount");
    assert_eq!(float(p.mult_amount.default), 1.0);
    assert_eq!(float(p.mult_amount.value), 1.0);
    assert_eq!(p.mult_amount.display, FloatDisplay::Raw);
    match p.mult_amount.range {
        FloatRange::Skewed { min, max, skew } => {
            assert_eq!(float(min), 1.0);
            assert_eq!(float(max), 1024.0);
            assert_eq!(float(skew), -1.0);
        }
        _ => panic!("the factor has a skewed range"),
    }
    assert_eq!(p.residue.name, "Difference Only");
    assert!(!p.residue.default);
    assert!(!p.residue.value);
}

#[test]
fn the_snapshot_holds_the_values_of_the_controls() {
    let mut p = Parameters::new();
    let s = p.snapshot();
    assert_eq!(float(s.wet_dry), 1.0);
    assert_eq!(float(s.add_amount), 0.0);
    assert_eq!(float(s.mult_amount), 1.0);
    assert!(!s.residue);
    p.wet_dry.set_plain_value(single(0.25));
    p.add_amount.set_plain_value(single(77.5));
    p.mult_amount.set_plain_value(single(512.0));
    p.residue.value = true;
    let s = p.snapshot();
    assert_eq!(float(s.wet_dry), 0.25);
    assert_eq!(float(s.add_amount), 77.5);
    assert_eq!(float(s.mult_amount), 512.0);
    assert!(s.residue);
}

#[test]
fn a_value_is_held_within_the_range_of_its_control() {
    let mut p = Parameters::new();
    p.wet_dry.set_plain_value(single(1.5));
    assert_eq!(float(p.wet_dry.value), 1.0);
    p.wet_dry.set_plain_value(single(-0.5));
    assert_eq!(float(p.wet_dry.value), 0.0);
    p.add_amount.set_plain_value(single(5000000.0));
    assert_eq!(float(p.add_amount.value), 4194304.0);
    p.add_amount.set_plain_value(single(-1.0));
    assert_eq!(float(p.add_amount.value), 0.0);
    p.mult_amount.set_plain_value(single(0.0));
    assert_eq!(float(p.mult_amount.value), 1.0);
    p.mult_amount.set_plain_value(single(f32::INFINITY));
    assert_eq!(float(p.mult_amount.value), 1024.0);
    p.mult_amount.set_plain_value(single(3.0));
    assert_eq!(float(p.mult_amount.value), 3.0);
    assert_eq!(float(p.mult_amount.default), 1.0);
    assert_eq!(p.mult_amount.name, "Multiply Amount");
    p.mult_amount.set_plain_value(single(f32::NAN));
    assert!(float(p.mult_amount.value).is_nan());
}

#[test]
fn a_range_gives_its_bounds_and_holds_values_within_them() {
    let linear = FloatRange::Linear { min: single(-2.0), max: single(2.0) };
    assert_eq!(float(linear.min()), -2.0);
    assert_eq!(float(linear.max()), 2.0);
    assert_eq!(float(linear.clamp(single(3.0))), 2.0);
    assert_eq!(float(linear.clamp(single(-3.0))), -2.0);
    assert_eq!(float(linear.clamp(single(0.5))), 0.5);
    let skewed = FloatRange::Skewed { min: single(1.0), max: single(8.0), skew: single(-1.0) };
    assert_eq!(float(skewed.min()), 1.0);
    assert_eq!(float(skewed.max()), 8.0);
    assert_eq!(float(skewed.clamp(single(0.0))), 1.0);
    assert_eq!(float(skewed.clamp(single(9.0))), 8.0);
}

#[test]
fn a_control_is_built_from_its_parts() {
    let range = FloatRange::Linear { min: single(0.0), max: single(10.0) };
    let p = FloatParam::new("Depth", single(2.0), range);
    assert_eq!(p.name, "Depth");
    assert_eq!(p.unit, "");
    assert_eq!(p.display, FloatDisplay::Raw);
    assert_eq!(float(p.default), 2.0);
    assert_eq!(float(p.value), 2.0);
    let p = p.with_unit(" dB").with_display(FloatDisplay::Percent);
    assert_eq!(p.unit, " dB");
    assert_eq!(p.display, FloatDisplay::Percent);
    assert_eq!(p.name, "Depth");
    assert_eq!(float(p.value), 2.0);
    let share = percent("Share", single(0.5));
    assert_eq!(share.name, "Share");
    assert_eq!(share.unit, " %");
    assert_eq!(share.display, FloatDisplay::Percent);
    assert_eq!(float(share.default), 0.5);
    assert_eq!(float(share.value), 0.5);
    assert_eq!(float(share.range.min()), 0.0);
    assert_eq!(float(share.range.max()), 1.0);
    let flag = BoolParam::new("Flag", true);
    assert_eq!(flag.name, "Flag");
    assert!(flag.default);
    assert!(flag.value);
}

#[test]
fn the_limits_have_their_values() {
    assert_eq!(float(add_limit()), 4194304.0);
    assert_eq!(float(mult_limit()), 1024.0);
    assert_eq!(float(hundred()), 100.0);
}

#[test]
fn a_flag_is_shown_as_yes_or_no() {
    assert_eq!(bool_to_yes(true), "Yes");
    assert_eq!(bool_to_yes(false), "No");
}

#[test]
fn a_share_is_shown_in_percent_with_one_decimal() {
    assert_eq!(format_percent(single(1.0)), "100.0");
    assert_eq!(format_percent(single(0.0)), "0.0");
    assert_eq!(format_percent(single(0.5)), "50.0");
    assert_eq!(format_percent(single(0.123)), "12.3");
    assert_eq!(format_percent(single(0.1234)), "12.3");
    assert_eq!(format_percent(single(0.9999)), "100.0");
    assert_eq!(format_percent(single(0.00049)), "0.0");
    let mut p = Patterns { state: 21 };
    for _ in 0..50_000 {
        let share = (p.next() >> 8) as f32 / 16777215.0;
        assert_eq!(format_percent(single(share)), format!("{:.1}", share * 100.0));
    }
}

#[test]
fn one_decimal_is_printed_as_the_machine_prints_it() {
    let fixed = [
        0.0f32,
        -0.0,
        0.05,
        0.25,
        0.75,
        0.35,
        0.45,
        1.25,
        2.5,
        -2.5,
        -0.04,
        -0.06,
        9.95,
        9.96,
        99.95,
        999.95,
        0.95,
        1.0,
        10.0,
        12345.678,
        16777216.0,
        8388608.5,
        4194304.5,
        1.0e10,
        1.0e38,
        f32::MAX,
        f32::MIN,
        f32::MIN_POSITIVE,
        f32::INFINITY,
        f32::NEG_INFINITY,
        f32::NAN,
    ];
    for x in fixed {
        assert_eq!(format_fixed1(single(x)), format!("{:.1}", x), "{:?}", x);
    }
    let mut p = Patterns { state: 22 };
    for _ in 0..50_000 {
        let x = f32::from_bits(p.next());
        assert_eq!(format_fixed1(single(x)), format!("{:.1}", x), "{:?}", x);
        // Between a twentieth and a thousand the decimal carries weight.
        let y = f32::from_bits((p.next() & 0x807F_FFFF) | ((120 + p.next() % 16) << 23));
        assert_eq!(format_fixed1(single(y)), format!("{:.1}", y), "{:?}", y);
        // Twentieths and their neighbours: the ties, and what lies just beside them.
        let z = ((p.next() % 4000) as f32 * 2.0 + 1.0) / 20.0;
        assert_eq!(format_fixed1(single(z)), format!("{:.1}", z), "{:?}", z);
    }
}
