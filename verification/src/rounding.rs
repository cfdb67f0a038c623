use crate::value::{binade, nearest_even, rne};
use vstd::arithmetic::div_mod::{lemma_fundamental_div_mod, lemma_mod_bound};
use vstd::arithmetic::power2::{
    lemma2_to64, lemma_pow2_adds, lemma_pow2_pos, lemma_pow2_strictly_increases,
    lemma_pow2_unfold, pow2,
};
use vstd::prelude::*;

verus! {

/// A higher power of two is no smaller.
pub proof fn lemma_pow2_monotone(a: nat, b: nat)
    requires
        a <= b,
    ensures
        pow2(a) <= pow2(b),
{
    if a < b {
        lemma_pow2_strictly_increases(a, b);
    }
}

/// A quotient lies between the bounds that its numerator keeps in multiples of the divisor.
pub proof fn lemma_div_between(n: nat, d: nat, lo: nat, hi: nat)
    requires
        d > 0,
        lo * d <= n,
        n < hi * d,
    ensures
        lo <= n / d < hi,
{
    lemma_fundamental_div_mod(n as int, d as int);
    lemma_mod_bound(n as int, d as int);
    let q: nat = n / d;
    let r: nat = n % d;
    assert(n == d * q + r);
    if q < lo {
        assert(d * q + d <= lo * d) by (nonlinear_arith)
            requires
                q + 1 <= lo,
                d > 0,
        ;
    }
    if q >= hi {
        assert(hi * d <= d * q) by (nonlinear_arith)
            requires
                hi <= q,
                d > 0,
        ;
    }
}

/// A quotient and remainder are the only pair that puts the numerator together.
pub proof fn lemma_div_unique(n: nat, d: nat, q: nat)
    requires
        d > 0,
        q * d <= n,
        n < (q + 1) * d,
    ensures
        n / d == q,
        n % d == n - q * d,
{
    lemma_div_between(n, d, q, q + 1);
    lemma_fundamental_div_mod(n as int, d as int);
    assert(d * (n / d) == q * d) by (nonlinear_arith)
        requires
            n / d == q,
    ;
}

/// The spacing exponent of every magnitude of one binade.
pub proof fn lemma_binade(q: nat, j: nat)
    requires
        j == 0 ==> q < pow2(24),
        j > 0 ==> pow2(23 + j) <= q < pow2(24 + j),
    ensures
        binade(q) == j,
    decreases j,
{
    lemma2_to64();
    if j > 0 {
        lemma_pow2_monotone(24, 23 + j);
        lemma_pow2_unfold(23 + j);
        lemma_pow2_unfold(24 + j);
        assert(pow2((22 + j) as nat) <= q / 2 < pow2((23 + j) as nat));
        lemma_binade(q / 2, (j - 1) as nat);
    }
}

/// Rounding to nearest, ties to even, as it is computed from a truncated quotient `p` that
/// keeps `sh` digits below the last place, and a flag that tells whether anything was cut off.
pub open spec fn trunc_even(p: nat, sh: nat, sticky: bool) -> nat {
    let q: nat = p / pow2(sh);
    let r: nat = p % pow2(sh);
    let h: nat = pow2((sh - 1) as nat);
    if r > h || (r == h && (sticky || q % 2 == 1)) {
        q + 1
    } else {
        q
    }
}

/// `trunc_even` rounds as `nearest_even` does, where `p` is `n * c / w` cut to a whole number and
/// the divisor `dd` is worth `2^sh` units of `p`.
pub proof fn lemma_nearest_even_trunc(n: nat, dd: nat, p: nat, sh: nat, w: nat, c: nat, sticky: bool)
    requires
        sh >= 1,
        w > 0,
        c > 0,
        dd > 0,
        p * w <= n * c,
        n * c < (p + 1) * w,
        dd * c == pow2(sh) * w,
        sticky <==> p * w != n * c,
    ensures
        nearest_even(n, dd) == trunc_even(p, sh, sticky),
{
    let s: nat = pow2(sh);
    let h: nat = pow2((sh - 1) as nat);
    lemma_pow2_pos(sh);
    lemma_pow2_pos((sh - 1) as nat);
    lemma_pow2_unfold(sh);
    let q: nat = p / s;
    let r: nat = p % s;
    lemma_fundamental_div_mod(p as int, s as int);
    lemma_mod_bound(p as int, s as int);
    assert(p == s * q + r);
    let dc: nat = dd * c;
    let nc: nat = n * c;
    assert(p * w == q * dc + r * w) by (nonlinear_arith)
        requires
            p == s * q + r,
            dc == s * w,
    ;
    assert((p + 1) * w == q * dc + (r + 1) * w) by (nonlinear_arith)
        requires
            p == s * q + r,
            dc == s * w,
    ;
    assert((r + 1) * w <= dc) by (nonlinear_arith)
        requires
            r + 1 <= s,
            dc == s * w,
    ;
    assert(0 <= r * w) by (nonlinear_arith)
        requires
            r >= 0,
            w >= 0,
    ;
    assert(q * dd <= n && n < (q + 1) * dd) by (nonlinear_arith)
        requires
            q * dc <= nc,
            nc < q * dc + dc,
            dc == dd * c,
            nc == n * c,
            c > 0,
    ;
    lemma_div_unique(n, dd, q);
    let rr: nat = n % dd;
    assert(rr * c == nc - q * dc) by (nonlinear_arith)
        requires
            rr == n - q * dd,
            dc == dd * c,
            nc == n * c,
    ;
    assert(dc == 2 * (h * w)) by (nonlinear_arith)
        requires
            dc == s * w,
            s == 2 * h,
    ;
    let hw: nat = h * w;
    let rc: nat = rr * c;
    assert(r * w <= rc);
    assert(rc < (r + 1) * w);
    assert(sticky <==> r * w != rc);
    if r > h {
        assert(r * w >= hw + w) by (nonlinear_arith)
            requires
                r >= h + 1,
                hw == h * w,
                w > 0,
        ;
        assert(2 * rr > dd) by (nonlinear_arith)
            requires
                rc > hw,
                rc == rr * c,
                dc == 2 * hw,
                dc == dd * c,
                c > 0,
        ;
    } else if r < h {
        assert((r + 1) * w <= hw) by (nonlinear_arith)
            requires
                r + 1 <= h,
                hw == h * w,
                w > 0,
        ;
        assert(2 * rr < dd) by (nonlinear_arith)
            requires
                rc < hw,
                rc == rr * c,
                dc == 2 * hw,
                dc == dd * c,
                c > 0,
        ;
    } else {
        assert(r * w == hw);
        if sticky {
            assert(2 * rr > dd) by (nonlinear_arith)
                requires
                    rc > hw,
                    rc == rr * c,
                    dc == 2 * hw,
                    dc == dd * c,
                    c > 0,
            ;
        } else {
            assert(2 * rr == dd) by (nonlinear_arith)
                requires
                    rc == hw,
                    rc == rr * c,
                    dc == 2 * hw,
                    dc == dd * c,
                    c > 0,
            ;
        }
    }
}

/// The spacing exponent of the magnitudes in `[2^(top - 1), 2^top)`.
pub open spec fn spacing_exp(top: int) -> nat {
    if top > 24 {
        (top - 24) as nat
    } else {
        0
    }
}

/// How `rne` is computed: from a quotient `p` of `len >= 26` digits that stands for the
/// magnitudes from `p * 2^(x - y)` up to, but not including, `(p + 1) * 2^(x - y)`, and a flag
/// that tells whether the magnitude lies above the lower end.
pub proof fn lemma_rne_trunc(n: nat, d: nat, p: nat, len: nat, x: nat, y: nat, sticky: bool)
    requires
        d > 0,
        len >= 26,
        pow2((len - 1) as nat) <= p < pow2(len),
        p * (pow2(x) * d) <= n * pow2(y),
        n * pow2(y) < (p + 1) * (pow2(x) * d),
        sticky <==> p * (pow2(x) * d) != n * pow2(y),
    ensures
        spacing_exp(len + x - y) + y - x >= 2,
        rne(n, d) == trunc_even(p, (spacing_exp(len + x - y) + y - x) as nat, sticky) * pow2(
            spacing_exp(len + x - y),
        ),
        trunc_even(p, (spacing_exp(len + x - y) + y - x) as nat, sticky) <= pow2(24),
        spacing_exp(len + x - y) > 0 ==> trunc_even(
            p,
            (spacing_exp(len + x - y) + y - x) as nat,
            sticky,
        ) >= pow2(23),
{
    let j: nat = spacing_exp(len + x - y);
    let sh: nat = (j + y - x) as nat;
    let c: nat = pow2(y);
    let px: nat = pow2(x);
    let w: nat = px * d;
    let pj: nat = pow2(j);
    let ps: nat = pow2(sh);
    let pl: nat = pow2(len);
    lemma_pow2_pos(x);
    lemma_pow2_pos(y);
    lemma_pow2_pos(j);
    lemma_pow2_pos(sh);
    assert(w > 0) by (nonlinear_arith)
        requires
            px > 0,
            d > 0,
            w == px * d,
    ;
    // The magnitude lies below 2^(24 + j).
    let hi: nat = pow2(24 + j);
    let plx: nat = pow2(len + x);
    lemma_pow2_adds(len, x);
    lemma_pow2_monotone(len + x, 24 + j + y);
    lemma_pow2_adds(24 + j, y);
    assert((p + 1) * w <= (hi * d) * c) by (nonlinear_arith)
        requires
            p + 1 <= pl,
            w == px * d,
            plx == pl * px,
            plx <= hi * c,
            d > 0,
            px > 0,
    {
        assert((p + 1) * w <= pl * w);
        assert(pl * w == plx * d);
        assert(plx * d <= (hi * c) * d);
    }
    assert(n < hi * d) by (nonlinear_arith)
        requires
            n * c < (hi * d) * c,
            c > 0,
    ;
    if j > 0 {
        let lo: nat = pow2(23 + j);
        let plx1: nat = pow2((len - 1) as nat + x);
        let pl1: nat = pow2((len - 1) as nat);
        lemma_pow2_adds((len - 1) as nat, x);
        lemma_pow2_adds(23 + j, y);
        assert((len - 1) as nat + x == 23 + j + y);
        assert((lo * d) * c <= p * w) by (nonlinear_arith)
            requires
                pl1 <= p,
                w == px * d,
                plx1 == pl1 * px,
                plx1 == lo * c,
                d > 0,
                px > 0,
        {
            assert(pl1 * w <= p * w);
            assert(pl1 * w == plx1 * d);
        }
        assert(lo * d <= n) by (nonlinear_arith)
            requires
                (lo * d) * c <= n * c,
                c > 0,
        ;
        lemma_div_between(n, d, lo, hi);
    } else {
        assert(0 * d <= n);
        lemma_div_between(n, d, 0, hi);
    }
    lemma_binade(n / d, j);
    // The divisor of the last place is worth 2^sh units of `p`.
    let dd: nat = d * pj;
    lemma_pow2_adds(j, y);
    lemma_pow2_adds(sh, x);
    assert(j + y == sh + x);
    assert(dd * c == ps * w) by (nonlinear_arith)
        requires
            dd == d * pj,
            pj * c == ps * px,
            w == px * d,
    ;
    assert(dd > 0) by (nonlinear_arith)
        requires
            dd == d * pj,
            d > 0,
            pj > 0,
    ;
    lemma_nearest_even_trunc(n, dd, p, sh, w, c, sticky);
    // The rounded significand has at most 24 digits, and exactly 24 above the first binade.
    lemma2_to64();
    if len >= sh {
        lemma_pow2_adds((len - sh) as nat, sh);
        assert(0 * ps <= p);
        lemma_div_between(p, ps, 0, pow2((len - sh) as nat));
        lemma_pow2_monotone((len - sh) as nat, 24);
    } else {
        lemma_pow2_monotone(len, sh);
        assert(0 * ps <= p);
        assert(p < 1 * ps);
        lemma_div_between(p, ps, 0, 1);
    }
    if j > 0 {
        lemma_pow2_adds(23, sh);
        lemma_pow2_adds(24, sh);
        assert(23 + sh == (len - 1) as nat);
        assert(24 + sh == len);
        lemma_div_between(p, ps, pow2(23), pow2(24));
    }
}

/// Nothing rounds to nothing.
pub proof fn lemma_rne_zero(d: nat)
    requires
        d > 0,
    ensures
        rne(0, d) == 0,
{
    lemma2_to64();
    let q: nat = 0;
    assert(q * d <= 0 && 0 < (q + 1) * d) by (nonlinear_arith)
        requires
            q == 0,
            d > 0,
    ;
    lemma_div_unique(0, d, q);
    assert(d * 1 == d);
    assert(binade(0) == 0);
}

/// Whether a magnitude is one that a single with unbounded exponent can have: a whole number
/// of the spacing of its binade.
pub open spec fn on_grid(r: nat) -> bool {
    r % pow2(binade(r)) == 0
}

/// The binade that a magnitude lies in, from its spacing exponent.
pub proof fn lemma_binade_bounds(q: nat)
    ensures
        q < pow2(24 + binade(q)),
        binade(q) > 0 ==> q >= pow2(23 + binade(q)),
    decreases q,
{
    lemma2_to64();
    if q >= 0x100_0000 {
        lemma_binade_bounds(q / 2);
        let j: nat = binade(q / 2);
        assert(binade(q) == j + 1);
        lemma_pow2_unfold(24 + j + 1);
        lemma_pow2_unfold(23 + j + 1);
    }
}

/// What `rne` multiplies the spacing by: the significand, of at most 24 digits before it is
/// rounded, and of exactly 24 above the first binade.
pub proof fn lemma_rne_shape(n: nat, d: nat)
    requires
        d > 0,
    ensures
        n / (d * pow2(binade(n / d))) < pow2(24),
        binade(n / d) > 0 ==> n / (d * pow2(binade(n / d))) >= pow2(23),
        rne(n, d) <= pow2(24) * pow2(binade(n / d)),
        rne(n, d) >= (n / (d * pow2(binade(n / d)))) * pow2(binade(n / d)),
        nearest_even(n, d * pow2(binade(n / d))) <= 0x100_0000,
        binade(n / d) > 0 ==> nearest_even(n, d * pow2(binade(n / d))) >= 0x80_0000,
{
    let q0: nat = n / d;
    let j: nat = binade(q0);
    let pj: nat = pow2(j);
    let dd: nat = d * pj;
    let hi: nat = pow2(24 + j);
    lemma_binade_bounds(q0);
    lemma_pow2_pos(j);
    lemma_pow2_adds(24, j);
    lemma_pow2_adds(23, j);
    lemma_fundamental_div_mod(n as int, d as int);
    lemma_mod_bound(n as int, d as int);
    assert(dd > 0) by (nonlinear_arith)
        requires
            dd == d * pj,
            d > 0,
            pj > 0,
    ;
    let r0: nat = n % d;
    let p24: nat = pow2(24);
    let p23: nat = pow2(23);
    assert(n < d * hi) by (nonlinear_arith)
        requires
            n == d * q0 + r0,
            r0 < d,
            q0 + 1 <= hi,
    ;
    assert(d * hi == p24 * dd) by (nonlinear_arith)
        requires
            hi == p24 * pj,
            dd == d * pj,
    ;
    assert(0 * dd <= n);
    lemma_div_between(n, dd, 0, pow2(24));
    if j > 0 {
        let lo: nat = pow2(23 + j);
        assert(d * lo <= n) by (nonlinear_arith)
            requires
                n == d * q0 + r0,
                r0 >= 0,
                lo <= q0,
                d > 0,
        ;
        assert(d * lo == p23 * dd) by (nonlinear_arith)
            requires
                lo == p23 * pj,
                dd == d * pj,
        ;
        lemma_div_between(n, dd, pow2(23), pow2(24));
    }
    let f: nat = n / dd;
    let ne: nat = nearest_even(n, dd);
    assert(f <= ne <= f + 1);
    assert(ne * pj <= p24 * pj && ne * pj >= f * pj) by (nonlinear_arith)
        requires
            f <= ne,
            ne <= p24,
            pj > 0,
    ;
    lemma2_to64();
}

/// A magnitude on the grid is its significand times its spacing.
pub proof fn lemma_grid_parts(r: nat)
    requires
        on_grid(r),
    ensures
        r == (r / pow2(binade(r))) * pow2(binade(r)),
        r / pow2(binade(r)) < pow2(24),
        binade(r) > 0 ==> r / pow2(binade(r)) >= pow2(23),
{
    let k: nat = binade(r);
    let pk: nat = pow2(k);
    lemma_pow2_pos(k);
    lemma_fundamental_div_mod(r as int, pk as int);
    assert(pk * (r / pk) == (r / pk) * pk) by (nonlinear_arith);
    lemma_binade_bounds(r);
    lemma_pow2_adds(24, k);
    lemma_pow2_adds(23, k);
    assert(0 * pk <= r);
    lemma_div_between(r, pk, 0, pow2(24));
    if k > 0 {
        lemma_div_between(r, pk, pow2(23), pow2(24));
    }
}

/// A significand of at most 24 digits times a spacing lies on the grid, where the significand
/// has all 24 digits or the spacing is a single step.
pub proof fn lemma_parts_on_grid(m: nat, k: nat)
    requires
        m < 0x100_0000,
        k == 0 || m >= 0x80_0000,
    ensures
        on_grid(m * pow2(k)),
        m > 0 ==> binade(m * pow2(k)) == k,
        m * pow2(k) / pow2(binade(m * pow2(k))) == m,
{
    let pk: nat = pow2(k);
    let r: nat = m * pk;
    lemma2_to64();
    lemma_pow2_pos(k);
    lemma_pow2_adds(24, k);
    lemma_pow2_adds(23, k);
    if k == 0 {
        assert(r == m) by (nonlinear_arith)
            requires
                r == m * pk,
                pk == 1,
        ;
        lemma_binade(r, 0);
        assert(m * 1 <= r && r < (m + 1) * 1);
        lemma_div_unique(r, 1, m);
    } else {
        assert(pow2(23) * pk <= r && r < pow2(24) * pk) by (nonlinear_arith)
            requires
                r == m * pk,
                pow2(23) <= m,
                m < pow2(24),
                pk > 0,
        ;
        lemma_binade(r, k);
        assert(m * pk <= r && r < (m + 1) * pk) by (nonlinear_arith)
            requires
                r == m * pk,
                pk > 0,
        ;
        lemma_div_unique(r, pk, m);
    }
}

/// What `rne` returns lies on the grid.
pub proof fn lemma_rne_on_grid(n: nat, d: nat)
    requires
        d > 0,
    ensures
        on_grid(rne(n, d)),
{
    let j: nat = binade(n / d);
    let pj: nat = pow2(j);
    let dd: nat = d * pj;
    let ne: nat = nearest_even(n, dd);
    lemma_rne_shape(n, d);
    if ne < 0x100_0000 {
        lemma_parts_on_grid(ne, j);
    } else {
        lemma_pow2_unfold(j + 1);
        let pj1: nat = pow2(j + 1);
        assert(ne == 0x100_0000);
        assert(pj1 == 2 * pj);
        assert(ne * pj == 0x80_0000 * pj1) by (nonlinear_arith)
            requires
                ne == 0x100_0000,
                pj1 == 2 * pj,
        ;
        lemma_parts_on_grid(0x80_0000, j + 1);
    }
}

/// A magnitude on the grid rounds to itself.
pub proof fn lemma_rne_exact(r: nat, d: nat)
    requires
        d > 0,
        on_grid(r),
    ensures
        rne(r * d, d) == r,
{
    let n: nat = r * d;
    let k: nat = binade(r);
    let pk: nat = pow2(k);
    let m: nat = r / pk;
    let dd: nat = d * pk;
    lemma_grid_parts(r);
    lemma_pow2_pos(k);
    assert(r * d <= n && n < (r + 1) * d) by (nonlinear_arith)
        requires
            n == r * d,
            d > 0,
    ;
    lemma_div_unique(n, d, r);
    assert(dd > 0 && m * dd <= n && n < (m + 1) * dd && n - m * dd == 0) by (nonlinear_arith)
        requires
            n == r * d,
            r == m * pk,
            dd == d * pk,
            d > 0,
            pk > 0,
    ;
    lemma_div_unique(n, dd, m);
}

/// Rounding does not pass a magnitude on the grid that the exact magnitude does not pass.
pub proof fn lemma_rne_upper(n: nat, d: nat, r: nat)
    requires
        d > 0,
        on_grid(r),
        n <= r * d,
    ensures
        rne(n, d) <= r,
{
    let q0: nat = n / d;
    let j: nat = binade(q0);
    let pj: nat = pow2(j);
    let dd: nat = d * pj;
    let k: nat = binade(r);
    let pk: nat = pow2(k);
    let m: nat = r / pk;
    lemma_grid_parts(r);
    lemma_binade_bounds(q0);
    lemma_binade_bounds(r);
    lemma_rne_shape(n, d);
    lemma_pow2_pos(j);
    lemma_pow2_pos(k);
    assert(n < (r + 1) * d) by (nonlinear_arith)
        requires
            n <= r * d,
            d > 0,
    ;
    assert(0 * d <= n);
    lemma_div_between(n, d, 0, r + 1);
    if k < j {
        lemma_pow2_monotone(24 + k, 23 + j);
    } else {
        let pkj: nat = pow2((k - j) as nat);
        let rr: nat = m * pkj;
        lemma_pow2_adds((k - j) as nat, j);
        assert(dd > 0 && r * d == rr * dd) by (nonlinear_arith)
            requires
                r == m * pk,
                pk == pkj * pj,
                dd == d * pj,
                rr == m * pkj,
                d > 0,
                pj > 0,
        ;
        let f: nat = n / dd;
        lemma_fundamental_div_mod(n as int, dd as int);
        lemma_mod_bound(n as int, dd as int);
        let ne: nat = nearest_even(n, dd);
        if f >= rr {
            assert(dd * f >= dd * rr) by (nonlinear_arith)
                requires
                    f >= rr,
                    dd > 0,
            ;
            assert(dd * f <= dd * rr) by (nonlinear_arith)
                requires
                    dd * f <= n,
                    n <= rr * dd,
            ;
            assert(f == rr) by (nonlinear_arith)
                requires
                    dd * f == dd * rr,
                    dd > 0,
            ;
            let r1: nat = n % dd;
            assert(r1 == 0) by (nonlinear_arith)
                requires
                    n == dd * f + r1,
                    f == rr,
                    n <= rr * dd,
            ;
        }
        assert(ne <= rr);
        assert(ne * pj <= r) by (nonlinear_arith)
            requires
                ne <= rr,
                rr == m * pkj,
                r == m * pk,
                pk == pkj * pj,
                pj > 0,
        ;
    }
}

/// A larger magnitude lies in no lower binade.
pub proof fn lemma_binade_monotone(a: nat, b: nat)
    requires
        a <= b,
    ensures
        binade(a) <= binade(b),
    decreases b,
{
    if a >= 0x100_0000 {
        lemma_binade_monotone(a / 2, b / 2);
    }
}

/// Rounding keeps the order of whole magnitudes.
pub proof fn lemma_rne_monotone(a: nat, b: nat)
    requires
        a <= b,
    ensures
        rne(a, 1) <= rne(b, 1),
{
    let ja: nat = binade(a);
    let jb: nat = binade(b);
    let pa: nat = pow2(ja);
    let pb: nat = pow2(jb);
    assert(a / 1 == a && b / 1 == b);
    assert(1 * pa == pa && 1 * pb == pb);
    lemma_binade_monotone(a, b);
    lemma_rne_shape(a, 1);
    lemma_rne_shape(b, 1);
    lemma_pow2_pos(ja);
    lemma_pow2_pos(jb);
    if ja < jb {
        let fb: nat = b / pb;
        let p23: nat = pow2(23);
        lemma_pow2_adds(24, ja);
        lemma_pow2_adds(23, jb);
        lemma_pow2_monotone(24 + ja, 23 + jb);
        assert(fb * pb >= p23 * pb) by (nonlinear_arith)
            requires
                fb >= p23,
                pb > 0,
        ;
    } else {
        let fa: nat = a / pa;
        let fb: nat = b / pa;
        let ra: nat = a % pa;
        let rb: nat = b % pa;
        lemma_fundamental_div_mod(a as int, pa as int);
        lemma_fundamental_div_mod(b as int, pa as int);
        lemma_mod_bound(a as int, pa as int);
        lemma_mod_bound(b as int, pa as int);
        let nea: nat = nearest_even(a, pa);
        let neb: nat = nearest_even(b, pa);
        if fa > fb {
            assert(pa * fa >= pa * fb + pa) by (nonlinear_arith)
                requires
                    fa >= fb + 1,
                    pa > 0,
            ;
        }
        if fa == fb {
            assert(ra <= rb);
        }
        assert(nea <= neb);
        assert(nea * pa <= neb * pa) by (nonlinear_arith)
            requires
                nea <= neb,
                pa > 0,
        ;
    }
}

/// Rounding a whole magnitude below `2^(24 + j)` raises it by half the spacing there at most.
pub proof fn lemma_rne_error(e: nat, j: nat)
    requires
        j >= 1,
        e < pow2(24 + j),
    ensures
        rne(e, 1) <= e + pow2((j - 1) as nat),
{
    let je: nat = binade(e);
    let pe: nat = pow2(je);
    let f: nat = e / pe;
    let r: nat = e % pe;
    let ne: nat = nearest_even(e, pe);
    assert(e / 1 == e);
    assert(1 * pe == pe);
    lemma2_to64();
    lemma_binade_bounds(e);
    lemma_pow2_pos(je);
    if je > j {
        lemma_pow2_monotone(24 + j, 23 + je);
    }
    lemma_fundamental_div_mod(e as int, pe as int);
    lemma_mod_bound(e as int, pe as int);
    if ne == f {
        assert(ne * pe <= e) by (nonlinear_arith)
            requires
                ne == f,
                e == pe * f + r,
                r >= 0,
        ;
    } else {
        assert(je >= 1);
        let half: nat = pow2((je - 1) as nat);
        lemma_pow2_unfold(je);
        lemma_pow2_monotone((je - 1) as nat, (j - 1) as nat);
        assert(ne * pe <= e + half) by (nonlinear_arith)
            requires
                ne == f + 1,
                e == pe * f + r,
                2 * r >= pe,
                pe == 2 * half,
        ;
    }
}

/// A whole magnitude from 1.0 up to halfway to the next single rounds to 1.0.
pub proof fn lemma_rne_near_unit(n: nat)
    requires
        pow2(149) <= n <= pow2(149) + pow2(125),
    ensures
        rne(n, 1) == pow2(149),
{
    let pj: nat = pow2(126);
    let half: nat = pow2(125);
    let f: nat = 0x80_0000;
    assert(n / 1 == n);
    assert(1 * pj == pj);
    lemma2_to64();
    lemma_pow2_pos(125);
    lemma_pow2_unfold(126);
    lemma_pow2_unfold(150);
    lemma_pow2_adds(23, 126);
    lemma_pow2_strictly_increases(125, 149);
    lemma_binade(n, 126);
    assert(f * pj <= n && n < (f + 1) * pj) by (nonlinear_arith)
        requires
            f * pj <= n,
            n <= f * pj + half,
            pj == 2 * half,
            half > 0,
    ;
    lemma_div_unique(n, pj, f);
    assert(f % 2 == 0);
}

/// Rounding does not fall below a magnitude on the grid that the exact magnitude does not
/// fall below.
pub proof fn lemma_rne_lower(n: nat, d: nat, r: nat)
    requires
        d > 0,
        on_grid(r),
        n >= r * d,
    ensures
        rne(n, d) >= r,
{
    let q0: nat = n / d;
    let j: nat = binade(q0);
    let pj: nat = pow2(j);
    let dd: nat = d * pj;
    let k: nat = binade(r);
    let pk: nat = pow2(k);
    let m: nat = r / pk;
    let f: nat = n / dd;
    lemma_grid_parts(r);
    lemma_binade_bounds(q0);
    lemma_binade_bounds(r);
    lemma_rne_shape(n, d);
    lemma_pow2_pos(j);
    lemma_pow2_pos(k);
    if k < j {
        let p23: nat = pow2(23);
        lemma_pow2_monotone(24 + k, 23 + j);
        lemma_pow2_adds(23, j);
        assert(f * pj >= p23 * pj) by (nonlinear_arith)
            requires
                f >= p23,
                pj > 0,
        ;
    } else {
        let pkj: nat = pow2((k - j) as nat);
        let rr: nat = m * pkj;
        lemma_pow2_adds((k - j) as nat, j);
        assert(dd > 0 && r * d == rr * dd && r == rr * pj) by (nonlinear_arith)
            requires
                r == m * pk,
                pk == pkj * pj,
                dd == d * pj,
                rr == m * pkj,
                d > 0,
                pj > 0,
        ;
        lemma_fundamental_div_mod(n as int, dd as int);
        lemma_mod_bound(n as int, dd as int);
        let r1: nat = n % dd;
        assert(n < (f + 1) * dd) by (nonlinear_arith)
            requires
                n == dd * f + r1,
                r1 < dd,
        ;
        assert(rr < f + 1) by (nonlinear_arith)
            requires
                rr * dd <= n,
                n < (f + 1) * dd,
                dd > 0,
        ;
        assert(f * pj >= rr * pj) by (nonlinear_arith)
            requires
                f >= rr,
                pj > 0,
        ;
    }
}

/// How far apart two counts are.
pub open spec fn distance(a: nat, b: nat) -> nat {
    if a >= b {
        (a - b) as nat
    } else {
        (b - a) as nat
    }
}

/// A magnitude on the grid in the binade of spacing `2^j`, or in a higher one, is a whole
/// number of that spacing.
pub proof fn lemma_grid_multiple(g: nat, j: nat) -> (c: nat)
    requires
        on_grid(g),
        binade(g) >= j,
    ensures
        g == c * pow2(j),
{
    let k: nat = binade(g);
    let pk: nat = pow2(k);
    let pj: nat = pow2(j);
    let pkj: nat = pow2((k - j) as nat);
    let m: nat = g / pk;
    lemma_grid_parts(g);
    lemma_pow2_adds((k - j) as nat, j);
    assert(g == (m * pkj) * pj) by (nonlinear_arith)
        requires
            g == m * pk,
            pk == pkj * pj,
    ;
    m * pkj
}

/// Rounding gives a nearest magnitude: no magnitude on the grid lies nearer to `n / d` than
/// `rne(n, d)` does.
pub proof fn law_rne_is_nearest(n: nat, d: nat, g: nat)
    requires
        d > 0,
        on_grid(g),
    ensures
        distance(rne(n, d) * d, n) <= distance(g * d, n),
{
    let q0: nat = n / d;
    let j: nat = binade(q0);
    let pj: nat = pow2(j);
    let dd: nat = d * pj;
    let f: nat = n / dd;
    let r: nat = n % dd;
    let ne: nat = nearest_even(n, dd);
    let nearest: nat = rne(n, d);
    let p23: nat = pow2(23);
    lemma_pow2_pos(j);
    lemma_rne_shape(n, d);
    lemma_binade_bounds(q0);
    lemma_binade_bounds(g);
    assert(dd > 0) by (nonlinear_arith)
        requires
            dd == d * pj,
            d > 0,
            pj > 0,
    ;
    lemma_fundamental_div_mod(n as int, dd as int);
    lemma_mod_bound(n as int, dd as int);
    lemma_fundamental_div_mod(n as int, d as int);
    lemma_mod_bound(n as int, d as int);
    let r0: nat = n % d;
    assert(nearest * d == ne * dd) by (nonlinear_arith)
        requires
            nearest == ne * pj,
            dd == d * pj,
    ;
    assert(ne * dd == f * dd + (ne - f) * dd) by (nonlinear_arith);
    assert(dd * f == f * dd) by (nonlinear_arith);
    if g * d >= n {
        lemma_rne_upper(n, d, g);
        assert(nearest * d <= g * d) by (nonlinear_arith)
            requires
                nearest <= g,
                d > 0,
        ;
        if nearest * d < n {
            // Rounded down: the remainder is half the spacing at most, and `g` lies a whole
            // spacing above the rounded magnitude.
            assert(ne == f) by (nonlinear_arith)
                requires
                    ne == f || ne == f + 1,
                    nearest * d == ne * dd,
                    nearest * d < n,
                    n == dd * f + r,
                    r < dd,
            ;
            assert(g >= q0) by (nonlinear_arith)
                requires
                    g * d >= n,
                    n == d * q0 + r0,
                    r0 >= 0,
                    d > 0,
            ;
            lemma_binade_monotone(q0, g);
            let c: nat = lemma_grid_multiple(g, j);
            assert(c >= f + 1) by (nonlinear_arith)
                requires
                    g == c * pj,
                    g * d >= n,
                    n > f * dd,
                    dd == d * pj,
                    dd > 0,
            ;
            assert(g * d >= f * dd + dd) by (nonlinear_arith)
                requires
                    g == c * pj,
                    c >= f + 1,
                    dd == d * pj,
                    dd > 0,
            ;
        }
    } else {
        lemma_rne_lower(n, d, g);
        assert(nearest * d >= g * d) by (nonlinear_arith)
            requires
                nearest >= g,
                d > 0,
        ;
        if nearest * d > n {
            // Rounded up: the remainder is half the spacing at least, and `g` does not pass
            // the magnitude cut to the spacing.
            assert(ne == f + 1) by (nonlinear_arith)
                requires
                    ne == f || ne == f + 1,
                    nearest * d == ne * dd,
                    nearest * d > n,
                    n == dd * f + r,
                    r >= 0,
            ;
            assert((ne - f) * dd == dd) by (nonlinear_arith)
                requires
                    ne == f + 1,
            ;
            if binade(g) >= j {
                let c: nat = lemma_grid_multiple(g, j);
                assert(c <= f) by (nonlinear_arith)
                    requires
                        g == c * pj,
                        g * d < n,
                        n < f * dd + dd,
                        dd == d * pj,
                        dd > 0,
                ;
                assert(g * d <= f * dd) by (nonlinear_arith)
                    requires
                        g == c * pj,
                        c <= f,
                        dd == d * pj,
                        dd > 0,
                ;
            } else {
                lemma_pow2_monotone(24 + binade(g), 23 + j);
                lemma_pow2_adds(23, j);
                assert(g * d <= f * dd) by (nonlinear_arith)
                    requires
                        g < p23 * pj,
                        f >= p23,
                        dd == d * pj,
                        d > 0,
                        pj > 0,
                {
                    assert(g * d <= (p23 * pj) * d);
                    assert((p23 * pj) * d == p23 * dd);
                    assert(p23 * dd <= f * dd);
                }
            }
        }
    }
}

} // verus!
