use crate::rounding::{
    lemma_div_between, lemma_div_unique, lemma_pow2_monotone, lemma_rne_trunc, lemma_rne_zero,
    spacing_exp, trunc_even,
};
use crate::single::{
    lemma_pattern_landmarks, lemma_pattern_monotone, lemma_pattern_packed, pattern_magnitude,
    Single,
};
use crate::value::{unit, Value};
use vstd::arithmetic::div_mod::{lemma_fundamental_div_mod, lemma_mod_bound};
use vstd::arithmetic::power2::{
    lemma2_to64, lemma2_to64_rest, lemma_pow2_adds, lemma_pow2_pos, lemma_pow2_unfold, pow2,
};
use vstd::bits::{lemma_u64_shl_is_mul, lemma_u64_shr_is_div};
use vstd::prelude::*;

verus! {

/// The number of binary digits of `p`.
pub fn bit_length(p: u64) -> (len: u32)
    requires
        1 <= p < 0x4000_0000_0000_0000,
    ensures
        1 <= len <= 62,
        pow2((len - 1) as nat) <= p < pow2(len as nat),
{
    let mut len: u32 = 0;
    let mut rest: u64 = p;
    proof {
        lemma2_to64();
        lemma2_to64_rest();
    }
    while rest > 0
        invariant
            len <= 62,
            p < 0x4000_0000_0000_0000,
            pow2(62) == 0x4000_0000_0000_0000,
            rest * pow2(len as nat) <= p < (rest + 1) * pow2(len as nat),
            len > 0 ==> pow2((len - 1) as nat) <= p,
            len == 0 ==> rest == p && p >= 1,
        decreases rest,
    {
        let ghost pl: nat = pow2(len as nat);
        proof {
            lemma_pow2_pos(len as nat);
            lemma_pow2_unfold((len + 1) as nat);
            assert(pl <= p) by (nonlinear_arith)
                requires
                    rest * pl <= p,
                    rest >= 1,
                    pl > 0,
            ;
            if len >= 62 {
                lemma_pow2_monotone(62, len as nat);
            }
            let half: nat = (rest / 2) as nat;
            assert(half * (2 * pl) <= p && p < (half + 1) * (2 * pl)) by (nonlinear_arith)
                requires
                    rest * pl <= p,
                    p < (rest + 1) * pl,
                    2 * half <= rest,
                    rest <= 2 * half + 1,
                    pl > 0,
            ;
        }
        rest = rest / 2;
        len = len + 1;
    }
    proof {
        assert(p < pow2(len as nat)) by (nonlinear_arith)
            requires
                p < (rest + 1) * pow2(len as nat),
                rest == 0,
        ;
    }
    len
}

/// `p` shifted up to 62 digits.
fn normalise(p: u64, len: u32) -> (sig: u64)
    requires
        1 <= len <= 62,
        pow2((len - 1) as nat) <= p < pow2(len as nat),
    ensures
        sig == p * pow2((62 - len) as nat),
        pow2(61) <= sig < pow2(62),
{
    let s: u32 = 62 - len;
    proof {
        let ps: nat = pow2(s as nat);
        let pl: nat = pow2(len as nat);
        let pl1: nat = pow2((len - 1) as nat);
        lemma2_to64();
        lemma2_to64_rest();
        lemma_pow2_adds(len as nat, s as nat);
        lemma_pow2_adds((len - 1) as nat, s as nat);
        lemma_pow2_pos(s as nat);
        assert(p * ps < pow2(62) && pow2(61) <= p * ps) by (nonlinear_arith)
            requires
                pl1 <= p,
                p < pl,
                pl * ps == pow2(62),
                pl1 * ps == pow2(61),
                ps > 0,
        ;
        lemma_u64_shl_is_mul(p, s as u64);
    }
    p << (s as u64)
}

/// `sig / 2^sh`, rounded to nearest, ties to even; `sticky` tells whether `sig` itself stands
/// for something slightly larger.
pub(crate) fn round_shifted(sig: u64, sh: u32, sticky: bool) -> (m: u64)
    requires
        sig < 0x4000_0000_0000_0000,
        sh >= 1,
    ensures
        m == trunc_even(sig as nat, sh as nat, sticky),
{
    proof {
        lemma2_to64();
        lemma2_to64_rest();
        lemma_pow2_pos(sh as nat);
    }
    if sh >= 63 {
        proof {
            let ps: nat = pow2(sh as nat);
            let q: nat = 0;
            lemma_pow2_monotone(62, (sh - 1) as nat);
            lemma_pow2_unfold(sh as nat);
            assert(q * ps <= sig && sig < (q + 1) * ps) by (nonlinear_arith)
                requires
                    q == 0,
                    sig < ps,
            ;
            lemma_div_unique(sig as nat, ps, q);
        }
        0
    } else {
        let q: u64 = sig >> (sh as u64);
        proof {
            let ps: nat = pow2(sh as nat);
            lemma_u64_shr_is_div(sig, sh as u64);
            lemma_fundamental_div_mod(sig as int, ps as int);
            lemma_mod_bound(sig as int, ps as int);
            assert(q * ps == ps * q) by (nonlinear_arith);
            lemma_u64_shl_is_mul(q, sh as u64);
            lemma_pow2_monotone((sh - 1) as nat, 62);
            lemma_u64_shl_is_mul(1, (sh - 1) as u64);
        }
        let rem: u64 = sig - (q << (sh as u64));
        let half: u64 = 1u64 << ((sh - 1) as u64);
        if rem > half || (rem == half && (sticky || q % 2 == 1)) {
            q + 1
        } else {
            q
        }
    }
}

/// The single of the given sign whose magnitude is `m * 2^j`, or the infinity of that sign
/// where that is too large for a single.
fn pack(negative: bool, j: u32, m: u32) -> (r: Single)
    requires
        m <= 0x100_0000,
        j == 0 || m >= 0x80_0000,
        j <= 2000,
    ensures
        r@ == Value::number(negative, m as nat * pow2(j as nat)),
{
    proof {
        lemma_pattern_packed(j as nat, m as nat);
    }
    if j >= 254 {
        return Single::infinite(negative);
    }
    let low: u32 = j * 0x80_0000 + m;
    if low >= 0x7F80_0000 {
        Single::infinite(negative)
    } else if negative {
        Single { bits: low + 0x8000_0000 }
    } else {
        Single { bits: low }
    }
}

/// The single of the given sign nearest to the magnitude `n / d`, which the caller holds cut to
/// the whole number `p` of units of `2^e`; `sticky` tells whether the cut took anything off.
pub(crate) fn round_pack(
    negative: bool,
    p: u64,
    e: i32,
    sticky: bool,
    Ghost(n): Ghost<nat>,
    Ghost(d): Ghost<nat>,
    Ghost(x): Ghost<nat>,
    Ghost(y): Ghost<nat>,
) -> (r: Single)
    requires
        d > 0,
        1 <= p < 0x4000_0000_0000_0000,
        -1000 <= e <= 1000,
        e == x - y,
        sticky ==> p >= 0x200_0000,
        p * (pow2(x) * d) <= n * pow2(y),
        n * pow2(y) < (p + 1) * (pow2(x) * d),
        sticky <==> p * (pow2(x) * d) != n * pow2(y),
    ensures
        r@ == Value::rounded(negative, n, d),
{
    let mut len: u32 = bit_length(p);
    let mut sig: u64 = p;
    let mut exp: i32 = e;
    let ghost mut yy: nat = y;
    let ghost w: nat = pow2(x) * d;
    proof {
        lemma2_to64();
        lemma2_to64_rest();
        lemma_pow2_pos(x);
        assert(w > 0) by (nonlinear_arith)
            requires
                pow2(x) > 0,
                d > 0,
                w == pow2(x) * d,
        ;
    }
    if sticky {
        proof {
            if len < 26 {
                lemma_pow2_monotone(len as nat, 25);
            }
        }
    } else {
        let s: u32 = 62 - len;
        sig = normalise(p, len);
        proof {
            let ps: nat = pow2(s as nat);
            lemma_pow2_adds(y, s as nat);
            assert((p * ps) * w == n * (pow2(y) * ps)) by (nonlinear_arith)
                requires
                    p * w == n * pow2(y),
            ;
            yy = y + s as nat;
        }
        exp = e - s as i32;
        len = 62;
    }
    let top: i32 = len as i32 + exp;
    let j: i32 = if top > 24 {
        top - 24
    } else {
        0
    };
    let sh: i32 = j - exp;
    proof {
        assert(sig * w < (sig + 1) * w) by (nonlinear_arith)
            requires
                w > 0,
        ;
        lemma_rne_trunc(n, d, sig as nat, len as nat, x, yy, sticky);
        assert(j == spacing_exp(len + x - yy));
        assert(sh == j + yy - x);
    }
    let m: u64 = round_shifted(sig, sh as u32, sticky);
    pack(negative, j as u32, m as u32)
}

/// The sum of two finite numbers that lie at most 32 binades apart, which is computed exactly
/// before it is rounded.
fn add_near(s_hi: bool, m_hi: u32, k_hi: u32, s_lo: bool, m_lo: u32, k_lo: u32) -> (r: Single)
    requires
        m_hi < 0x100_0000,
        m_lo < 0x100_0000,
        k_lo <= k_hi <= 253,
        k_hi - k_lo <= 32,
    ensures
        r@ == Value::finite_sum(
            s_hi,
            m_hi as nat * pow2(k_hi as nat),
            s_lo,
            m_lo as nat * pow2(k_lo as nat),
        ),
{
    let ghost a: nat = m_hi as nat * pow2(k_hi as nat);
    let ghost b: nat = m_lo as nat * pow2(k_lo as nat);
    let ghost pl: nat = pow2(k_lo as nat);
    let ghost x: nat = k_lo as nat;
    let diff: u32 = k_hi - k_lo;
    proof {
        let pd: nat = pow2(diff as nat);
        lemma2_to64();
        lemma2_to64_rest();
        lemma_pow2_pos(k_lo as nat);
        lemma_pow2_adds(diff as nat, k_lo as nat);
        lemma_pow2_monotone(diff as nat, 32);
        assert(m_hi * pd < 0x100_0000_0000_0000) by (nonlinear_arith)
            requires
                m_hi < 0x100_0000,
                pd <= 0x1_0000_0000,
        ;
        lemma_u64_shl_is_mul(m_hi as u64, diff as u64);
        assert(a == (m_hi * pd) * pl) by (nonlinear_arith)
            requires
                a == m_hi as nat * pow2(k_hi as nat),
                pow2(k_hi as nat) == pd * pl,
        ;
    }
    let hi: u64 = (m_hi as u64) << (diff as u64);
    let lo: u64 = m_lo as u64;
    if s_hi == s_lo {
        let p: u64 = hi + lo;
        proof {
            assert(p * (pl * 1) == (a + b) * 1) by (nonlinear_arith)
                requires
                    p == hi + lo,
                    a == hi * pl,
                    b == lo * pl,
            ;
        }
        if p == 0 {
            Single::zero(s_hi)
        } else {
            proof {
                assert((p + 1) * (pl * 1) > (a + b) * 1) by (nonlinear_arith)
                    requires
                        p * (pl * 1) == (a + b) * 1,
                        pl > 0,
                ;
                assert(a + b > 0) by (nonlinear_arith)
                    requires
                        p * (pl * 1) == (a + b) * 1,
                        pl > 0,
                        p >= 1,
                ;
            }
            round_pack(s_hi, p, k_lo as i32, false, Ghost(a + b), Ghost(1), Ghost(x), Ghost(0))
        }
    } else if hi == lo {
        Single::zero(false)
    } else if hi > lo {
        let p: u64 = hi - lo;
        proof {
            assert(p * (pl * 1) == (a - b) * 1 && (p + 1) * (pl * 1) > (a - b) * 1 && a - b > 0)
                by (nonlinear_arith)
                requires
                    p == hi - lo,
                    p >= 1,
                    pl > 0,
                    a == hi * pl,
                    b == lo * pl,
            ;
        }
        round_pack(s_hi, p, k_lo as i32, false, Ghost((a - b) as nat), Ghost(1), Ghost(x), Ghost(0))
    } else {
        let p: u64 = lo - hi;
        proof {
            assert(p * (pl * 1) == (b - a) * 1 && (p + 1) * (pl * 1) > (b - a) * 1 && b - a > 0)
                by (nonlinear_arith)
                requires
                    p == lo - hi,
                    p >= 1,
                    pl > 0,
                    a == hi * pl,
                    b == lo * pl,
            ;
        }
        round_pack(s_lo, p, k_lo as i32, false, Ghost((b - a) as nat), Ghost(1), Ghost(x), Ghost(0))
    }
}

/// The sum of two finite numbers that lie more than 32 binades apart: the lower one can only
/// decide which way the higher one is rounded.
fn add_far(s_hi: bool, m_hi: u32, k_hi: u32, s_lo: bool, m_lo: u32, k_lo: u32) -> (r: Single)
    requires
        0x80_0000 <= m_hi < 0x100_0000,
        m_lo < 0x100_0000,
        k_lo <= k_hi <= 253,
        k_hi - k_lo > 32,
    ensures
        r@ == Value::finite_sum(
            s_hi,
            m_hi as nat * pow2(k_hi as nat),
            s_lo,
            m_lo as nat * pow2(k_lo as nat),
        ),
{
    let ghost a: nat = m_hi as nat * pow2(k_hi as nat);
    let ghost b: nat = m_lo as nat * pow2(k_lo as nat);
    let ghost x: nat = (k_hi - 3) as nat;
    let ghost px: nat = pow2(x);
    let wide: u64 = (m_hi as u64) * 8;
    proof {
        let pl: nat = pow2(k_lo as nat);
        lemma2_to64();
        lemma_pow2_pos(x);
        lemma_pow2_pos(k_lo as nat);
        lemma_pow2_adds(3, x);
        lemma_pow2_adds(24, k_lo as nat);
        lemma_pow2_monotone(24 + k_lo as nat, x);
        assert(a == wide * px) by (nonlinear_arith)
            requires
                a == m_hi as nat * pow2(k_hi as nat),
                pow2(k_hi as nat) == 8 * px,
                wide == m_hi * 8,
        ;
        assert(b < px && (m_lo == 0 ==> b == 0) && (m_lo != 0 ==> b > 0)) by (nonlinear_arith)
            requires
                b == m_lo as nat * pl,
                m_lo < pow2(24),
                pow2(24) * pl <= px,
                pl > 0,
        ;
        assert(a >= px) by (nonlinear_arith)
            requires
                a == wide * px,
                wide >= 1,
        ;
    }
    let e: i32 = k_hi as i32 - 3;
    if m_lo == 0 {
        proof {
            assert(wide * (px * 1) == a * 1 && (wide + 1) * (px * 1) > a * 1) by (nonlinear_arith)
                requires
                    a == wide * px,
                    px > 0,
            ;
        }
        round_pack(s_hi, wide, e, false, Ghost(a), Ghost(1), Ghost(x), Ghost(0))
    } else if s_hi == s_lo {
        proof {
            assert(wide * (px * 1) < (a + b) * 1 && (wide + 1) * (px * 1) > (a + b) * 1)
                by (nonlinear_arith)
                requires
                    a == wide * px,
                    0 < b < px,
            ;
        }
        round_pack(s_hi, wide, e, true, Ghost(a + b), Ghost(1), Ghost(x), Ghost(0))
    } else {
        let p: u64 = wide - 1;
        proof {
            assert(p * (px * 1) < (a - b) * 1 && (p + 1) * (px * 1) > (a - b) * 1) by (nonlinear_arith)
                requires
                    a == wide * px,
                    p == wide - 1,
                    0 < b < px,
            ;
        }
        round_pack(s_hi, p, e, true, Ghost((a - b) as nat), Ghost(1), Ghost(x), Ghost(0))
    }
}

impl Single {
    /// The significand and the exponent of a number: its magnitude is
    /// `significand * 2^exponent` steps.
    pub fn split(self) -> (r: (u32, u32))
        requires
            !self@.is_nan(),
        ensures
            r.0 as nat * pow2(r.1 as nat) == self@.magnitude(),
            r.0 < 0x100_0000,
            r.1 <= 254,
            r.1 > 0 ==> r.0 >= 0x80_0000,
            self@.is_finite() ==> r.1 <= 253,
            (r.0 == 0) == self@.is_zero(),
    {
        let low: u32 = self.bits % 0x8000_0000;
        let e: u32 = low / 0x80_0000;
        let f: u32 = low % 0x80_0000;
        proof {
            lemma2_to64();
            lemma_pattern_landmarks();
            if 0 < low {
                lemma_pattern_monotone(0, low as nat);
            }
            if low < 0x7F80_0000 {
                lemma_pattern_monotone(low as nat, 0x7F80_0000);
            }
            assert(self@.magnitude() == pattern_magnitude(low as nat));
            if e == 0 {
                assert(pattern_magnitude(low as nat) == f);
                assert(f as nat * pow2(0) == f);
            } else {
                let pe: nat = pow2((e - 1) as nat);
                assert(pattern_magnitude(low as nat) == (0x80_0000 + f as nat) * pe);
                assert((f + 0x80_0000) as nat * pe == (0x80_0000 + f as nat) * pe);
            }
        }
        if e == 0 {
            (f, 0)
        } else {
            (f + 0x80_0000, e - 1)
        }
    }

    /// Whether the number is a zero, of either sign.
    pub fn is_zero(self) -> (b: bool)
        ensures
            b == self@.is_zero(),
    {
        proof {
            if 0 < self.bits % 0x8000_0000 <= 0x7F80_0000 {
                lemma_pattern_monotone(0, (self.bits % 0x8000_0000) as nat);
            }
        }
        self.bits % 0x8000_0000 == 0
    }

    /// The sum, rounded to the nearest single, ties to even.
    pub fn add(self, rhs: Single) -> (r: Single)
        ensures
            r@ == self@.sum(rhs@),
    {
        if self.is_nan() || rhs.is_nan() {
            return Single::nan();
        }
        if self.is_infinite() {
            if rhs.is_infinite() && self.is_sign_negative() != rhs.is_sign_negative() {
                return Single::nan();
            }
            return self;
        }
        if rhs.is_infinite() {
            return rhs;
        }
        let (ma, ka) = self.split();
        let (mb, kb) = rhs.split();
        let sa: bool = self.is_sign_negative();
        let sb: bool = rhs.is_sign_negative();
        if ka >= kb {
            if ka - kb <= 32 {
                add_near(sa, ma, ka, sb, mb, kb)
            } else {
                add_far(sa, ma, ka, sb, mb, kb)
            }
        } else {
            if kb - ka <= 32 {
                add_near(sb, mb, kb, sa, ma, ka)
            } else {
                add_far(sb, mb, kb, sa, ma, ka)
            }
        }
    }

    /// The difference, rounded to the nearest single, ties to even.
    pub fn sub(self, rhs: Single) -> (r: Single)
        ensures
            r@ == self@.difference(rhs@),
    {
        self.add(rhs.neg())
    }

    /// The product, rounded to the nearest single, ties to even.
    pub fn mul(self, rhs: Single) -> (r: Single)
        ensures
            r@ == self@.product(rhs@),
    {
        if self.is_nan() || rhs.is_nan() {
            return Single::nan();
        }
        let negative: bool = self.is_sign_negative() != rhs.is_sign_negative();
        if self.is_infinite() || rhs.is_infinite() {
            if self.is_zero() || rhs.is_zero() {
                return Single::nan();
            }
            return Single::infinite(negative);
        }
        let (ma, ka) = self.split();
        let (mb, kb) = rhs.split();
        let ghost a: nat = self@.magnitude();
        let ghost b: nat = rhs@.magnitude();
        let ghost x: nat = (ka + kb) as nat;
        let ghost w: nat = pow2(x) * unit();
        proof {
            lemma_pow2_pos(277);
            lemma_pow2_pos(149);
            lemma_pow2_pos(x);
            lemma_pow2_adds(ka as nat, kb as nat);
        }
        if ma == 0 || mb == 0 {
            proof {
                assert(a * b == 0) by (nonlinear_arith)
                    requires
                        a == 0 || b == 0,
                ;
                lemma_rne_zero(unit());
            }
            return Single::zero(negative);
        }
        proof {
            assert(ma * mb < 0x1_0000_0000_0000 && ma * mb >= 1) by (nonlinear_arith)
                requires
                    1 <= ma < 0x100_0000,
                    1 <= mb < 0x100_0000,
            ;
        }
        let p: u64 = (ma as u64) * (mb as u64);
        proof {
            let pa: nat = pow2(ka as nat);
            let pb: nat = pow2(kb as nat);
            assert(p * (pow2(x) * unit()) == (a * b) * pow2(149)) by (nonlinear_arith)
                requires
                    p == ma * mb,
                    pow2(x) == pa * pb,
                    a == ma as nat * pa,
                    b == mb as nat * pb,
                    unit() == pow2(149),
            ;
            assert(w > 0 && (p + 1) * w > p * w) by (nonlinear_arith)
                requires
                    w == pow2(x) * unit(),
                    pow2(x) > 0,
                    unit() > 0,
            ;
        }
        round_pack(
            negative,
            p,
            (ka + kb) as i32 - 149,
            false,
            Ghost(a * b),
            Ghost(unit()),
            Ghost(x),
            Ghost(149),
        )
    }

    /// The quotient, rounded to the nearest single, ties to even.
    pub fn div(self, rhs: Single) -> (r: Single)
        ensures
            r@ == self@.quotient(rhs@),
    {
        if self.is_nan() || rhs.is_nan() {
            return Single::nan();
        }
        let negative: bool = self.is_sign_negative() != rhs.is_sign_negative();
        if self.is_infinite() {
            if rhs.is_infinite() {
                return Single::nan();
            }
            return Single::infinite(negative);
        }
        if rhs.is_infinite() {
            return Single::zero(negative);
        }
        if rhs.is_zero() {
            if self.is_zero() {
                return Single::nan();
            }
            return Single::infinite(negative);
        }
        let (ma, ka) = self.split();
        let (mb, kb) = rhs.split();
        let ghost a: nat = self@.magnitude();
        let ghost b: nat = rhs@.magnitude();
        proof {
            lemma2_to64();
            lemma2_to64_rest();
            lemma_pow2_pos(277);
            lemma_pow2_pos(149);
        }
        if ma == 0 {
            proof {
                assert(a * unit() == 0) by (nonlinear_arith)
                    requires
                        a == 0,
                ;
                lemma_rne_zero(b);
            }
            return Single::zero(negative);
        }
        let len: u32 = bit_length(ma as u64);
        proof {
            if len > 24 {
                lemma_pow2_monotone(24, (len - 1) as nat);
            }
        }
        let la: u32 = 24 - len;
        let num: u64 = normalise(ma as u64, len);
        let q: u64 = num / (mb as u64);
        let rem: u64 = num % (mb as u64);
        let ghost x: nat = (ka + 149) as nat;
        let ghost y: nat = (la + 38 + kb) as nat;
        proof {
            let pa: nat = pow2(ka as nat);
            let pb: nat = pow2(kb as nat);
            let pn: nat = pow2((62 - len) as nat);
            let t: nat = pow2(x) * pb;
            lemma_pow2_pos(ka as nat);
            lemma_pow2_pos(kb as nat);
            lemma_pow2_pos(x);
            lemma_pow2_adds(ka as nat, 149);
            lemma_pow2_adds((la + 38) as nat, kb as nat);
            lemma_fundamental_div_mod(num as int, mb as int);
            assert(num == mb * q + rem);
            assert(t > 0) by (nonlinear_arith)
                requires
                    t == pow2(x) * pb,
                    pow2(x) > 0,
                    pb > 0,
            ;
            assert(a * unit() * pow2(y) == num * t) by (nonlinear_arith)
                requires
                    a == ma as nat * pa,
                    num == ma * pn,
                    pow2(y) == pn * pb,
                    pow2(x) == pa * unit(),
                    t == pow2(x) * pb,
            ;
            assert(q * (pow2(x) * b) == (q * mb) * t && (q + 1) * (pow2(x) * b) == (q * mb + mb)
                * t) by (nonlinear_arith)
                requires
                    b == mb as nat * pb,
                    t == pow2(x) * pb,
            ;
            assert((q * mb) * t <= num * t && num * t < (q * mb + mb) * t && ((q * mb) * t != num
                * t <==> rem != 0)) by (nonlinear_arith)
                requires
                    num == mb * q + rem,
                    0 <= rem < mb,
                    t > 0,
            ;
            assert(0x20_0000_0000 * mb <= num) by (nonlinear_arith)
                requires
                    mb < 0x100_0000,
                    num >= 0x2000_0000_0000_0000,
            ;
            assert(num < 0x4000_0000_0000_0000 * mb) by (nonlinear_arith)
                requires
                    mb >= 1,
                    num < 0x4000_0000_0000_0000,
            ;
            lemma_div_between(num as nat, mb as nat, 0x20_0000_0000, 0x4000_0000_0000_0000);
        }
        round_pack(
            negative,
            q,
            (ka + 149) as i32 - (la + 38 + kb) as i32,
            rem != 0,
            Ghost(a * unit()),
            Ghost(b),
            Ghost(x),
            Ghost(y),
        )
    }
}

} // verus!
