use hardbit::arith::bit_length;
use hardbit::single::Single;

fn single(x: f32) -> Single {
    Single::from_bits(x.to_bits())
}

fn float(x: Single) -> f32 {
    f32::from_bits(x.to_bits())
}

/// Equal as the library promises it: the same pattern, or both NaN.
fn same(got: Single, want: f32) -> bool {
    let got = float(got);
    (got.is_nan() && want.is_nan()) || got.to_bits() == want.to_bits()
}

struct Patterns {
    state: u64,
}

impl Patterns {
    fn new(seed: u64) -> Patterns {
        Patterns { state: seed }
    }

    fn next(&mut self) -> u32 {
        self.state = self.state.wrapping_mul(6364136223846793005).wrapping_add(1442695040888963407);
        (self.state >> 32) as u32
    }

    /// A pattern whose exponent field lies within `spread` of that of `near`.
    fn next_near(&mut self, near: u32, spread: u32) -> u32 {
        let e = (near >> 23) & 0xFF;
        let shift = self.next() % (2 * spread + 1);
        let e = (e + shift).saturating_sub(spread).min(255);
        (self.next() & 0x807F_FFFF) | (e << 23)
    }
}

fn landmarks() -> Vec<f32> {
    let mut v = vec![
        0.0,
        -0.0,
        1.0,
        -1.0,
        0.5,
        2.0,
        0.1,
        3.0,
        1024.0,
        4194304.0,
        1000000.0,
        16777216.0,
        16777215.0,
        f32::MAX,
        f32::MIN,
        f32::MIN_POSITIVE,
        f32::EPSILON,
        f32::INFINITY,
        f32::NEG_INFINITY,
        f32::NAN,
    ];
    for bits in [1u32, 2, 3, 0x7F_FFFF, 0x80_0000, 0x80_0001, 0x7F7F_FFFE, 0x3F7F_FFFF, 0x3F80_0001] {
        v.push(f32::from_bits(bits));
        v.push(f32::from_bits(bits | 0x8000_0000));
    }
    v
}

fn check_all(a: f32, b: f32) {
    let (x, y) = (single(a), single(b));
    assert!(same(x.add(y), a + b), "{:?} + {:?}", a, b);
    assert!(same(x.sub(y), a - b), "{:?} - {:?}", a, b);
    assert!(same(x.mul(y), a * b), "{:?} * {:?}", a, b);
    assert!(same(x.div(y), a / b), "{:?} / {:?}", a, b);
    assert_eq!(x.lt(y), a < b, "{:?} < {:?}", a, b);
}

#[test]
fn arithmetic_matches_the_machine_on_landmarks() {
    let v = landmarks();
    for &a in &v {
        for &b in &v {
            check_all(a, b);
        }
    }
}

#[test]
fn arithmetic_matches_the_machine_on_scattered_patterns() {
    let mut p = Patterns::new(1);
    for _ in 0..200_000 {
        let a = f32::from_bits(p.next());
        let b = f32::from_bits(p.next());
        check_all(a, b);
    }
}

#[test]
fn arithmetic_matches_the_machine_on_neighbouring_exponents() {
    let mut p = Patterns::new(2);
    for _ in 0..200_000 {
        let a = p.next();
        let b = p.next_near(a, 3);
        check_all(f32::from_bits(a), f32::from_bits(b));
    }
}

#[test]
fn arithmetic_matches_the_machine_across_the_alignment_limit() {
    let mut p = Patterns::new(3);
    for _ in 0..200_000 {
        let a = p.next();
        let b = p.next_near(a, 40);
        check_all(f32::from_bits(a), f32::from_bits(b));
    }
}

#[test]
fn arithmetic_matches_the_machine_on_subnormals() {
    let mut p = Patterns::new(4);
    for _ in 0..200_000 {
        let a = p.next() & 0x80FF_FFFF;
        let b = p.next() & 0x80FF_FFFF;
        check_all(f32::from_bits(a), f32::from_bits(b));
        let c = p.next();
        check_all(f32::from_bits(a), f32::from_bits(c));
        check_all(f32::from_bits(c), f32::from_bits(b));
    }
}

#[test]
fn products_and_quotients_that_meet_the_limits_match_the_machine() {
    let mut p = Patterns::new(5);
    for _ in 0..200_000 {
        let a = p.next();
        // An exponent field that mirrors the first one, so that products fall near 1.0 and near
        // the smallest singles, and quotients near both ends of the range.
        let e = (a >> 23) & 0xFF;
        let mirrored = (254u32.saturating_sub(e) + p.next() % 5).saturating_sub(2).min(255);
        let b = (p.next() & 0x807F_FFFF) | (mirrored << 23);
        check_all(f32::from_bits(a), f32::from_bits(b));
        let low = (p.next() & 0x807F_FFFF) | ((p.next() % 30) << 23);
        check_all(f32::from_bits(a), f32::from_bits(low));
        check_all(f32::from_bits(low), f32::from_bits(a));
    }
}

#[test]
fn classification_matches_the_machine() {
    let mut p = Patterns::new(6);
    let mut v: Vec<f32> = landmarks();
    for _ in 0..100_000 {
        v.push(f32::from_bits(p.next()));
    }
    for a in v {
        let x = single(a);
        assert_eq!(x.is_nan(), a.is_nan());
        assert_eq!(x.is_finite(), a.is_finite());
        assert_eq!(x.is_infinite(), a.is_infinite());
        assert_eq!(x.is_sign_negative(), a.is_sign_negative());
        assert_eq!(x.is_zero(), a == 0.0);
        assert!(same(x.neg(), -a));
        assert!(same(x.clamp(Single::one(true), Single::one(false)), a.clamp(-1.0, 1.0)));
        assert!(same(x.clamp(Single::zero(false), Single::one(false)), a.clamp(0.0, 1.0)));
    }
}

#[test]
fn ties_go_to_the_even_significand() {
    // 16777216 + 1 lies halfway between 16777216 and 16777218.
    assert_eq!(float(single(16777216.0).add(single(1.0))), 16777216.0);
    // 16777218 + 1 lies halfway between 16777218 and 16777220.
    assert_eq!(float(single(16777218.0).add(single(1.0))), 16777220.0);
    assert_eq!(float(single(16777216.0).add(single(3.0))), 16777220.0);
}

#[test]
fn named_constants_have_their_patterns() {
    assert_eq!(float(Single::one(false)), 1.0);
    assert_eq!(float(Single::one(true)), -1.0);
    assert_eq!(Single::zero(false).to_bits(), 0.0f32.to_bits());
    assert_eq!(Single::zero(true).to_bits(), (-0.0f32).to_bits());
    assert_eq!(float(Single::infinite(false)), f32::INFINITY);
    assert_eq!(float(Single::infinite(true)), f32::NEG_INFINITY);
    assert!(float(Single::nan()).is_nan());
}

#[test]
fn the_number_of_digits_is_counted() {
    assert_eq!(bit_length(1), 1);
    assert_eq!(bit_length(2), 2);
    assert_eq!(bit_length(3), 2);
    assert_eq!(bit_length(255), 8);
    assert_eq!(bit_length(256), 9);
    assert_eq!(bit_length(0x3FFF_FFFF_FFFF_FFFF), 62);
    for n in 0..62u32 {
        assert_eq!(bit_length(1u64 << n), n + 1);
    }
}

#[test]
fn a_number_splits_into_significand_and_exponent() {
    assert_eq!(single(0.0).split(), (0, 0));
    assert_eq!(single(-0.0).split(), (0, 0));
    assert_eq!(Single::from_bits(1).split(), (1, 0));
    assert_eq!(Single::from_bits(0x7F_FFFF).split(), (0x7F_FFFF, 0));
    assert_eq!(single(f32::MIN_POSITIVE).split(), (0x80_0000, 0));
    assert_eq!(single(1.0).split(), (0x80_0000, 126));
    assert_eq!(single(-1.5).split(), (0xC0_0000, 126));
    assert_eq!(single(f32::MAX).split(), (0xFF_FFFF, 253));
    assert_eq!(single(f32::INFINITY).split(), (0x80_0000, 254));
    let mut p = Patterns::new(7);
    for _ in 0..10_000 {
        let x = f32::from_bits(p.next());
        if x.is_finite() {
            let (m, k) = single(x).split();
            let value = m as f64 * 2f64.powi(k as i32 - 149);
            assert_eq!(value, x.abs() as f64);
        }
    }
}
