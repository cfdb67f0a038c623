use crate::arith::round_shifted;
use crate::params::whole_value;
use crate::rounding::{lemma_div_unique, lemma_nearest_even_trunc, lemma_pow2_monotone};
use crate::single::{pattern_magnitude, Single};
use crate::value::{nearest_even, unit, Value};
use vstd::arithmetic::power2::{lemma2_to64, lemma_pow2_adds, lemma_pow2_pos, lemma_pow2_unfold, pow2};
use vstd::prelude::*;
use vstd::string::StringExecFns;

verus! {

/// The word that stands for a flag.
pub fn bool_to_yes(value: bool) -> (word: String)
    ensures
        word@ == (if value {
            seq!['Y', 'e', 's']
        } else {
            seq!['N', 'o']
        }),
{
    proof {
        reveal_strlit("Yes");
        reveal_strlit("No");
    }
    let word: String = if value {
        "Yes".to_string()
    } else {
        "No".to_string()
    };
    proof {
        assert(word@ =~= (if value {
            seq!['Y', 'e', 's']
        } else {
            seq!['N', 'o']
        }));
    }
    word
}

/// The character of a decimal digit.
pub open spec fn digit(d: nat) -> char {
    if d == 0 {
        '0'
    } else if d == 1 {
        '1'
    } else if d == 2 {
        '2'
    } else if d == 3 {
        '3'
    } else if d == 4 {
        '4'
    } else if d == 5 {
        '5'
    } else if d == 6 {
        '6'
    } else if d == 7 {
        '7'
    } else if d == 8 {
        '8'
    } else {
        '9'
    }
}

/// A whole number in decimal digits, without leading zeros.
pub open spec fn decimal(n: nat) -> Seq<char>
    decreases n,
{
    if n < 10 {
        seq![digit(n)]
    } else {
        decimal(n / 10).push(digit(n % 10))
    }
}

/// A value with one decimal, as the last digit comes out of rounding the exact value to the
/// nearest tenth, ties to the even digit.
pub open spec fn fixed1_text(v: Value) -> Seq<char> {
    if v.is_nan() {
        seq!['N', 'a', 'N']
    } else if v.is_infinite() {
        if v.negative() {
            seq!['-', 'i', 'n', 'f']
        } else {
            seq!['i', 'n', 'f']
        }
    } else {
        let tenths: nat = nearest_even(v.magnitude() * 10, unit());
        let sign: Seq<char> = if v.negative() {
            seq!['-']
        } else {
            Seq::empty()
        };
        sign + decimal(tenths / 10) + seq!['.', digit(tenths % 10)]
    }
}

/// A share in percent, with one decimal.
pub open spec fn percent_text(v: Value) -> Seq<char> {
    fixed1_text(v.product(whole_value(100)))
}

/// Puts one decimal digit behind the text.
fn push_digit(out: &mut String, d: u8)
    requires
        d < 10,
    ensures
        final(out)@ == old(out)@.push(digit(d as nat)),
{
    proof {
        reveal_strlit("0");
        reveal_strlit("1");
        reveal_strlit("2");
        reveal_strlit("3");
        reveal_strlit("4");
        reveal_strlit("5");
        reveal_strlit("6");
        reveal_strlit("7");
        reveal_strlit("8");
        reveal_strlit("9");
    }
    if d == 0 {
        out.append("0");
    } else if d == 1 {
        out.append("1");
    } else if d == 2 {
        out.append("2");
    } else if d == 3 {
        out.append("3");
    } else if d == 4 {
        out.append("4");
    } else if d == 5 {
        out.append("5");
    } else if d == 6 {
        out.append("6");
    } else if d == 7 {
        out.append("7");
    } else if d == 8 {
        out.append("8");
    } else {
        out.append("9");
    }
    proof {
        assert(out@ =~= old(out)@.push(digit(d as nat)));
    }
}

/// Puts a whole number in decimal digits behind the text.
fn push_decimal(out: &mut String, n: u128)
    ensures
        final(out)@ == old(out)@ + decimal(n as nat),
    decreases n,
{
    if n >= 10 {
        push_decimal(out, n / 10);
    }
    push_digit(out, (n % 10) as u8);
    proof {
        assert(out@ =~= old(out)@ + decimal(n as nat));
    }
}

/// The number of tenths nearest to a finite number's magnitude, ties to even, as the whole
/// part and the digit behind the point.
fn tenths(m: u32, k: u32) -> (r: (u128, u8))
    requires
        m < 0x100_0000,
        k <= 253,
    ensures
        r.0 == nearest_even(m as nat * pow2(k as nat) * 10, unit()) / 10,
        r.1 == nearest_even(m as nat * pow2(k as nat) * 10, unit()) % 10,
{
    let ghost mag: nat = m as nat * pow2(k as nat);
    proof {
        lemma2_to64();
        lemma_pow2_pos(149);
        lemma_pow2_pos(k as nat);
    }
    if k >= 149 {
        let mut whole: u128 = m as u128;
        let mut j: u32 = 0;
        proof {
            lemma_pow2_adds(64, 64);
        }
        while j < k - 149
            invariant
                j <= k - 149,
                k <= 253,
                whole == m as nat * pow2(j as nat),
                whole < pow2(24 + j as nat),
                pow2(128) == 0x1_0000_0000_0000_0000_0000_0000_0000_0000,
            decreases k - 149 - j,
        {
            proof {
                lemma_pow2_unfold((j + 1) as nat);
                lemma_pow2_unfold((24 + j + 1) as nat);
                lemma_pow2_monotone((24 + j + 1) as nat, 128);
                assert(m as nat * pow2((j + 1) as nat) == 2 * (m as nat * pow2(j as nat)))
                    by (nonlinear_arith)
                    requires
                        pow2((j + 1) as nat) == 2 * pow2(j as nat),
                ;
            }
            whole = whole * 2;
            j = j + 1;
        }
        proof {
            let t: nat = (whole * 10) as nat;
            lemma_pow2_adds((k - 149) as nat, 149);
            assert(mag * 10 == t * unit()) by (nonlinear_arith)
                requires
                    mag == m as nat * pow2(k as nat),
                    pow2(k as nat) == pow2((k - 149) as nat) * unit(),
                    whole == m as nat * pow2((k - 149) as nat),
                    t == whole * 10,
            ;
            assert(t * unit() <= mag * 10 && mag * 10 < (t + 1) * unit()) by (nonlinear_arith)
                requires
                    mag * 10 == t * unit(),
                    unit() > 0,
            ;
            lemma_div_unique(mag * 10, unit(), t);
        }
        (whole, 0)
    } else {
        let sh: u32 = 149 - k;
        let p: u64 = (m as u64) * 10;
        proof {
            lemma_pow2_adds(sh as nat, k as nat);
            assert(p * pow2(k as nat) == (mag * 10) * 1) by (nonlinear_arith)
                requires
                    mag == m as nat * pow2(k as nat),
                    p == m * 10,
            ;
            assert((mag * 10) * 1 < (p + 1) * pow2(k as nat)) by (nonlinear_arith)
                requires
                    p * pow2(k as nat) == (mag * 10) * 1,
                    pow2(k as nat) > 0,
            ;
            assert(unit() * 1 == pow2(sh as nat) * pow2(k as nat));
            lemma_nearest_even_trunc(
                mag * 10,
                unit(),
                p as nat,
                sh as nat,
                pow2(k as nat),
                1,
                false,
            );
        }
        let t: u64 = round_shifted(p, sh, false);
        ((t / 10) as u128, (t % 10) as u8)
    }
}

/// The number with one decimal, as `{:.1}` prints a single.
pub fn format_fixed1(v: Single) -> (text: String)
    ensures
        text@ == fixed1_text(v@),
{
    proof {
        reveal_strlit("NaN");
        reveal_strlit("inf");
        reveal_strlit("-inf");
        reveal_strlit("-");
        reveal_strlit(".");
    }
    if v.is_nan() {
        let text: String = "NaN".to_string();
        proof {
            assert(text@ =~= seq!['N', 'a', 'N']);
        }
        return text;
    }
    if v.is_infinite() {
        let text: String = if v.is_sign_negative() {
            "-inf".to_string()
        } else {
            "inf".to_string()
        };
        proof {
            assert(text@ =~= fixed1_text(v@));
        }
        return text;
    }
    let (m, k) = v.split();
    let (whole, tenth) = tenths(m, k);
    let mut text: String = String::new();
    if v.is_sign_negative() {
        text.append("-");
    }
    let ghost sign: Seq<char> = text@;
    push_decimal(&mut text, whole);
    text.append(".");
    push_digit(&mut text, tenth);
    proof {
        assert(sign =~= (if v@.negative() {
            seq!['-']
        } else {
            Seq::<char>::empty()
        }));
        assert(text@ =~= sign + decimal(whole as nat) + seq!['.', digit(tenth as nat)]);
    }
    text
}

/// 100.0
pub fn hundred() -> (r: Single)
    ensures
        r.bits == 0x42C8_0000u32,
        r@ == whole_value(100),
{
    proof {
        lemma2_to64();
        lemma_pow2_adds(17, 132);
        assert(pattern_magnitude(0x42C8_0000) == 0xC8_0000 * pow2(132));
        assert(0xC8_0000 * pow2(132) == 100 * unit()) by (nonlinear_arith)
            requires
                unit() == 0x2_0000 * pow2(132),
        ;
    }
    Single { bits: 0x42C8_0000 }
}

/// A share in percent with one decimal: the share times 100, rounded to a single, then to
/// tenths.
pub fn format_percent(share: Single) -> (text: String)
    ensures
        text@ == percent_text(share@),
{
    format_fixed1(share.mul(hundred()))
}

} // verus!
