use hardbit::params::Snapshot;
use hardbit::single::Single;
use hardbit::transform::{distort, lerp, wet};

fn single(x: f32) -> Single {
    Single::from_bits(x.to_bits())
}

fn float(x: Single) -> f32 {
    f32::from_bits(x.to_bits())
}

fn same(got: Single, want: f32) -> bool {
    let got = float(got);
    (got.is_nan() && want.is_nan()) || got.to_bits() == want.to_bits()
}

fn snapshot(wet_dry: f32, add: f32, mult: f32, residue: bool) -> Snapshot {
    Snapshot {
        wet_dry: single(wet_dry),
        add_amount: single(add),
        mult_amount: single(mult),
        residue,
    }
}

fn machine_lerp(start: f32, end: f32, t: f32) -> f32 {
    (end - start) * t.clamp(0.0, 1.0) + start
}

fn machine_wet(x: f32, add: f32, mult: f32, residue: bool) -> f32 {
    let out = x * mult + add;
    let out = (out - add) / mult;
    let out = if residue { out - x } else { out };
    let out = if !out.is_finite() { x } else { out };
    out.clamp(-1.0, 1.0)
}

fn machine_distort(x: f32, wet_dry: f32, add: f32, mult: f32, residue: bool) -> f32 {
    machine_lerp(x, machine_wet(x, add, mult, residue), wet_dry)
}

fn run(x: f32, wet_dry: f32, add: f32, mult: f32, residue: bool) -> f32 {
    float(distort(single(x), &snapshot(wet_dry, add, mult, residue)))
}

struct Patterns {
    state: u64,
}

impl Patterns {
    fn next(&mut self) -> u32 {
        self.state = self.state.wrapping_mul(6364136223846793005).wrapping_add(1442695040888963407);
        (self.state >> 32) as u32
    }

    /// A number in `[lo, hi]`.
    fn within(&mut self, lo: f32, hi: f32) -> f32 {
        let t = (self.next() >> 8) as f32 / 16777215.0;
        (lo + (hi - lo) * t).clamp(lo, hi)
    }
}

#[test]
fn distort_matches_the_machine_within_the_declared_ranges() {
    let mut p = Patterns { state: 11 };
    for _ in 0..100_000 {
        let x = p.within(-1.0, 1.0);
        let wet_dry = p.within(0.0, 1.0);
        let add = p.within(0.0, 4194304.0);
        let mult = p.within(1.0, 1024.0);
        let residue = p.next() % 2 == 0;
        let got = distort(single(x), &snapshot(wet_dry, add, mult, residue));
        let want = machine_distort(x, wet_dry, add, mult, residue);
        assert!(same(got, want), "{:?} {:?} {:?} {:?} {:?}", x, wet_dry, add, mult, residue);
    }
}

#[test]
fn distort_matches_the_machine_at_the_ends_of_the_ranges() {
    let mut p = Patterns { state: 12 };
    let mixes = [0.0f32, 1.0, 0.5, -0.0];
    let adds = [0.0f32, 4194304.0, 1000000.0, 1.0];
    let mults = [1.0f32, 1024.0, 3.0];
    for _ in 0..5_000 {
        let x = p.within(-1.0, 1.0);
        for &wet_dry in &mixes {
            for &add in &adds {
                for &mult in &mults {
                    for residue in [false, true] {
                        let got = distort(single(x), &snapshot(wet_dry, add, mult, residue));
                        let want = machine_distort(x, wet_dry, add, mult, residue);
                        assert!(same(got, want));
                    }
                }
            }
        }
    }
}

#[test]
fn distort_matches_the_machine_on_any_patterns() {
    let mut p = Patterns { state: 13 };
    for _ in 0..100_000 {
        let x = f32::from_bits(p.next());
        let wet_dry = f32::from_bits(p.next());
        let add = f32::from_bits(p.next());
        let mult = f32::from_bits(p.next());
        let residue = p.next() % 2 == 0;
        let got = distort(single(x), &snapshot(wet_dry, add, mult, residue));
        let want = machine_distort(x, wet_dry, add, mult, residue);
        assert!(same(got, want), "{:?} {:?} {:?} {:?} {:?}", x, wet_dry, add, mult, residue);
        assert!(same(wet(single(x), single(add), single(mult), residue), machine_wet(x, add, mult, residue)));
        assert!(same(lerp(single(x), single(add), single(wet_dry)), machine_lerp(x, add, wet_dry)));
    }
}

#[test]
fn nothing_added_and_a_factor_of_one_change_nothing() {
    let mut p = Patterns { state: 14 };
    for _ in 0..20_000 {
        let x = p.within(-1.0, 1.0);
        let wet_dry = p.within(0.0, 1.0);
        assert_eq!(run(x, 1.0, 0.0, 1.0, false).to_bits(), x.to_bits());
        assert_eq!(run(x, wet_dry, 0.0, 1.0, false).to_bits(), x.to_bits());
    }
    for x in [1.0f32, -1.0, 0.0, f32::MIN_POSITIVE, f32::from_bits(1), 0.1] {
        assert_eq!(run(x, 1.0, 0.0, 1.0, false).to_bits(), x.to_bits());
    }
    // A negative zero comes out as a zero, of the other sign.
    assert_eq!(run(-0.0, 1.0, 0.0, 1.0, false), 0.0);
    assert_eq!(run(-0.0, 1.0, 0.0, 1.0, false).to_bits(), 0);
}

#[test]
fn the_output_is_finite() {
    let mut p = Patterns { state: 15 };
    for _ in 0..100_000 {
        let mut x = f32::from_bits(p.next());
        if !x.is_finite() {
            x = 0.25;
        }
        let wet_dry = p.within(0.0, 1.0);
        let add = if p.next() % 4 == 0 { 4194304.0 } else { p.within(0.0, 4194304.0) };
        let mult = match p.next() % 4 {
            0 => 1.0,
            1 => 1024.0,
            _ => p.within(1.0, 1024.0),
        };
        let residue = p.next() % 2 == 0;
        assert!(run(x, wet_dry, add, mult, residue).is_finite());
    }
    assert!(run(f32::MAX, 0.5, 4194304.0, 1024.0, false).is_finite());
    assert!(run(f32::MAX, 1.0, 4194304.0, 1.0, true).is_finite());
    assert!(run(f32::MIN, 1.0, 0.0, 1024.0, false).is_finite());
}

#[test]
fn the_output_of_a_sample_between_the_limits_lies_between_the_limits() {
    let mut p = Patterns { state: 16 };
    for _ in 0..100_000 {
        let x = p.within(-1.0, 1.0);
        let wet_dry = f32::from_bits(p.next());
        let wet_dry = if wet_dry.is_nan() { 0.5 } else { wet_dry };
        let add = f32::from_bits(p.next());
        let mult = f32::from_bits(p.next());
        let residue = p.next() % 2 == 0;
        let out = run(x, wet_dry, add, mult, residue);
        assert!((-1.0..=1.0).contains(&out), "{:?}", out);
    }
}

#[test]
fn a_sample_beyond_the_limits_may_come_out_beyond_them() {
    assert_eq!(run(2.0, 0.0, 0.0, 1.0, false), 2.0);
    assert_eq!(run(2.0, 0.5, 0.0, 1.0, false), 1.5);
    assert_eq!(run(2.0, 1.0, 0.0, 1.0, false), 1.0);
}

#[test]
fn a_mix_of_zero_gives_the_input() {
    let mut p = Patterns { state: 17 };
    for _ in 0..50_000 {
        let mut x = f32::from_bits(p.next());
        if !x.is_finite() {
            x = -0.75;
        }
        let add = p.within(0.0, 4194304.0);
        let mult = p.within(1.0, 1024.0);
        let residue = p.next() % 2 == 0;
        let out = run(x, 0.0, add, mult, residue);
        assert_eq!(out, x);
        if x != 0.0 {
            assert_eq!(out.to_bits(), x.to_bits());
        }
        assert_eq!(run(x, -0.0, add, mult, residue), x);
    }
}

#[test]
fn a_mix_of_zero_does_not_save_an_infinite_sample() {
    assert!(run(f32::INFINITY, 0.0, 0.0, 1.0, false).is_nan());
}

#[test]
fn a_mix_of_one_gives_the_processed_signal_where_the_difference_is_exact() {
    let x = 0.1f32;
    let processed = float(wet(single(x), single(1000000.0), single(1.0), false));
    assert_eq!(processed, 0.125);
    assert_eq!(run(x, 1.0, 1000000.0, 1.0, false), processed);
    // In residue mode the processed signal is the error alone.
    let error = float(wet(single(x), single(1000000.0), single(1.0), true));
    assert_eq!(error, 0.125 - x);
    assert_eq!(run(x, 1.0, 1000000.0, 1.0, true), error);
}

#[test]
fn a_mix_of_one_may_miss_the_processed_signal_by_a_rounding() {
    let x = f32::from_bits(0x3E57_40E0);
    let processed = float(wet(single(x), single(4194304.0), single(3.0), true));
    assert_eq!(processed.to_bits(), 0xBD32_58D4);
    let out = run(x, 1.0, 4194304.0, 3.0, true);
    assert_eq!(out.to_bits(), 0xBD32_58D0);
    assert_eq!(out, (processed - x) + x);
}

#[test]
fn residue_of_the_identity_is_silence() {
    let mut p = Patterns { state: 18 };
    for _ in 0..50_000 {
        let mut x = f32::from_bits(p.next());
        if !x.is_finite() {
            x = 0.5;
        }
        let out = wet(single(x), single(0.0), single(1.0), true);
        assert_eq!(out.to_bits(), 0);
    }
    assert_eq!(wet(single(-0.0), single(0.0), single(1.0), true).to_bits(), 0);
    assert_eq!(wet(single(-0.0), single(-0.0), single(1.0), true).to_bits(), 0);
}

#[test]
fn a_large_amount_added_to_a_small_sample_shifts_it() {
    let out = run(0.1, 1.0, 1000000.0, 1.0, false);
    assert!(out.is_finite());
    assert!((-1.0..=1.0).contains(&out));
    assert!((out - 0.1).abs() > 0.01);
    assert_eq!(out, 0.125);
}

#[test]
fn one_half_passes_the_identity_path_unchanged() {
    for wet_dry in [0.0f32, 0.25, 0.5, 1.0] {
        assert_eq!(run(0.5, wet_dry, 0.0, 1.0, false).to_bits(), 0.5f32.to_bits());
    }
    assert_eq!(run(0.5, 0.0, 0.0, 1.0, true).to_bits(), 0.5f32.to_bits());
}

#[test]
fn one_half_in_residue_mode_fades_with_the_mix() {
    assert_eq!(run(0.5, 1.0, 0.0, 1.0, true), 0.0);
    assert_eq!(run(0.5, 0.5, 0.0, 1.0, true), 0.25);
}

#[test]
fn a_result_that_is_not_finite_gives_way_to_the_sample() {
    // 3e38 * 1024 overflows; the sample takes the place of the result and is held to 1.
    assert_eq!(float(wet(single(3.0e38), single(0.0), single(1024.0), false)), 1.0);
    assert_eq!(float(wet(single(-3.0e38), single(0.0), single(1024.0), false)), -1.0);
    assert_eq!(float(wet(single(0.25), single(f32::INFINITY), single(1.0), false)), 0.25);
    assert_eq!(float(wet(single(0.25), single(0.0), single(0.0), false)), 0.25);
    assert!(float(wet(single(f32::NAN), single(0.0), single(1.0), false)).is_nan());
}

#[test]
fn the_processed_signal_is_held_between_the_limits() {
    assert_eq!(float(wet(single(5.0), single(0.0), single(1.0), false)), 1.0);
    assert_eq!(float(wet(single(-5.0), single(0.0), single(1.0), false)), -1.0);
}

#[test]
fn the_fraction_of_a_mix_is_held_between_zero_and_one() {
    assert_eq!(float(lerp(single(0.25), single(0.75), single(2.0))), 0.75);
    assert_eq!(float(lerp(single(0.25), single(0.75), single(-3.0))), 0.25);
    assert_eq!(float(lerp(single(0.25), single(0.75), single(0.5))), 0.5);
    assert_eq!(float(lerp(single(0.25), single(0.75), single(f32::INFINITY))), 0.75);
    assert!(float(lerp(single(0.25), single(0.75), single(f32::NAN))).is_nan());
}
