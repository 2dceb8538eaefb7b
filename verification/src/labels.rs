//! Numbers on axes.
use crate::arith::{difference, negated, product, quotient, saturated, whole, whole_part};
use crate::bounds::{
    lemma_double_of, lemma_fraction_at_most_one, lemma_nearest_at_least, lemma_whole,
};
use crate::convert::{floored, rounded, rounded_part};
use crate::decimal::ten_to;
use crate::double::{scaled, Double, INFINITE, SIGN};
use crate::rounding::{power, split};
use crate::text::{
    decimal, digit, digits, signed_decimal, signed_digits, two_digit_decimal, two_digits,
};
use crate::window::{absolute, fraction, ratio};
use vstd::arithmetic::div_mod::{lemma_fundamental_div_mod, lemma_fundamental_div_mod_converse};
use vstd::arithmetic::power2::{
    lemma2_to64, lemma2_to64_rest, lemma_pow2_adds, lemma_pow2_pos, lemma_pow2_strictly_increases,
    pow2,
};
use vstd::prelude::*;
use vstd::string::*;

verus! {

/// The whole number nearest to `num / den`, the even one of two.
pub open spec fn half_even(num: nat, den: nat) -> nat {
    let q = num / den;
    let rem = num % den;
    if 2 * rem > den || (2 * rem == den && q % 2 == 1) {
        q + 1
    } else {
        q
    }
}

/// The last `k` digits of a number.
pub open spec fn last_digits(n: nat, k: nat) -> Seq<char>
    decreases k,
{
    if k == 0 {
        Seq::empty()
    } else {
        last_digits(n / 10, (k - 1) as nat).push(digit(n % 10))
    }
}

/// The number `n / 10^k`, with `k` digits behind the point.
pub open spec fn fixed_text(n: nat, k: nat) -> Seq<char> {
    if k == 0 {
        digits(n)
    } else {
        digits(n / ten_to(k)).push('.') + last_digits(n, k)
    }
}

pub proof fn lemma_ten_to(k: nat)
    ensures
        ten_to(k) >= 1,
        ten_to(k + 1) == 10 * ten_to(k),
    decreases k,
{
    if k > 0 {
        lemma_ten_to((k - 1) as nat);
    }
}

pub proof fn lemma_ten_to_increases(a: nat, b: nat)
    requires
        a <= b,
    ensures
        1 <= ten_to(a) <= ten_to(b),
        a < b ==> 10 * ten_to(a) <= ten_to(b),
    decreases b - a,
{
    lemma_ten_to(a);
    if a < b {
        lemma_ten_to((b - 1) as nat);
        lemma_ten_to_increases(a, (b - 1) as nat);
    }
}

/// A common factor does not change the nearest whole number.
pub proof fn lemma_half_even_scales(num: nat, den: nat, f: nat)
    requires
        den > 0,
        f > 0,
    ensures
        half_even(num * f, den * f) == half_even(num, den),
{
    let q = num as int / den as int;
    let r = num as int % den as int;
    lemma_fundamental_div_mod(num as int, den as int);
    assert(num * f == q * (den * f) + r * f) by (nonlinear_arith)
        requires
            num == den * q + r,
    ;
    assert(0 <= r * f < den * f) by (nonlinear_arith)
        requires
            0 <= r < den,
            f > 0,
    ;
    assert(q >= 0) by (nonlinear_arith)
        requires
            num == den * q + r,
            0 <= r < den,
            num >= 0,
    ;
    lemma_fundamental_div_mod_converse((num * f) as int, (den * f) as int, q, r * f);
    assert(2 * (r * f) > den * f <==> 2 * r > den) by (nonlinear_arith)
        requires
            f > 0,
    ;
    assert(2 * (r * f) == den * f <==> 2 * r == den) by (nonlinear_arith)
        requires
            f > 0,
    ;
}

fn push_last_digits(out: &mut String, n: u64, k: u32)
    ensures
        final(out)@ == old(out)@ + last_digits(n as nat, k as nat),
    decreases k,
{
    if k > 0 {
        push_last_digits(out, n / 10, k - 1);
        let d: u8 = (n % 10) as u8 + 48;
        out.push(d as char);
    }
    assert(out@ =~= old(out)@ + last_digits(n as nat, k as nat));
}

/// A power of ten.
fn power_of_ten(k: u32) -> (f: u64)
    requires
        k <= 19,
    ensures
        f == ten_to(k as nat),
        f >= 1,
{
    let mut f: u64 = 1;
    let mut i: u32 = 0;
    while i < k
        invariant
            i <= k <= 19,
            f == ten_to(i as nat),
        decreases k - i,
    {
        proof {
            lemma_ten_to(i as nat);
            lemma_ten_to_increases((i + 1) as nat, 19);
            assert(ten_to(19) == 10_000_000_000_000_000_000) by {
                reveal_with_fuel(ten_to, 20);
            }
        }
        f = f * 10;
        i = i + 1;
    }
    proof {
        lemma_ten_to(k as nat);
    }
    f
}

/// The number `n / 10^k`, with `k` digits behind the point.
pub fn fixed_decimal(n: u64, k: u32) -> (text: String)
    requires
        k <= 19,
    ensures
        text@ == fixed_text(n as nat, k as nat),
{
    if k == 0 {
        return decimal(n);
    }
    let f = power_of_ten(k);
    let mut text = decimal(n / f);
    text.push('.');
    push_last_digits(&mut text, n, k);
    text
}

/// The whole number nearest to `num / den`, the even one of two.
pub fn round_half_even(num: u128, den: u128) -> (n: u128)
    requires
        0 < den < 0x8000_0000_0000_0000_0000_0000_0000_0000,
    ensures
        n == half_even(num as nat, den as nat),
{
    let q: u128 = num / den;
    let rem: u128 = num % den;
    if 2 * rem > den || (2 * rem == den && q % 2 == 1) {
        proof {
            lemma_fundamental_div_mod(num as int, den as int);
            assert(q < 0xFFFF_FFFF_FFFF_FFFF_FFFF_FFFF_FFFF_FFFF) by (nonlinear_arith)
                requires
                    num == den * q + rem,
                    2 * rem >= den,
                    den > 0,
                    num <= 0xFFFF_FFFF_FFFF_FFFF_FFFF_FFFF_FFFF_FFFF,
            ;
        }
        q + 1
    } else {
        q
    }
}

/// A number with one digit behind the point: the nearest, the even one of two.
pub open spec fn one_decimal_text(v: Double) -> Seq<char> {
    let text = fixed_text(half_even(10 * scaled(v.magnitude()), pow2(1074)), 1);
    if v.negative() {
        seq!['-'] + text
    } else {
        text
    }
}

/// Tenths of a magnitude that has a fraction.
fn tenths_of(mag: u64) -> (n: u64)
    requires
        mag < INFINITE,
        scaled(mag) % pow2(1074) != 0,
    ensures
        n == half_even(10 * scaled(mag), pow2(1074)),
{
    let (m, t) = split(mag);
    proof {
        lemma2_to64();
        lemma2_to64_rest();
        if t >= 1074 {
            lemma_whole_multiple(m as nat, t as nat);
        }
    }
    let k: i32 = 1074 - t;
    let ghost u = pow2(t as nat);
    proof {
        lemma_pow2_pos(t as nat);
        lemma_pow2_pos(k as nat);
        lemma_pow2_adds(k as nat, t as nat);
        assert(10 * (m * u) == (10 * m) * u) by (nonlinear_arith);
        lemma_half_even_scales((10 * m) as nat, pow2(k as nat), u);
    }
    if k >= 127 {
        proof {
            if k > 127 {
                lemma_pow2_strictly_increases(127, k as nat);
            }
            lemma_pow2_adds(64, 63);
            let d = pow2(k as nat) as int;
            lemma_fundamental_div_mod_converse(10 * m as int, d, 0, 10 * m as int);
        }
        0
    } else {
        let den = power(k as u32);
        proof {
            if k < 126 {
                lemma_pow2_strictly_increases(k as nat, 126);
            }
            lemma_pow2_adds(63, 63);
        }
        let n = round_half_even(10 * m as u128, den);
        proof {
            lemma_fundamental_div_mod(10 * m as int, den as int);
            let q = (10 * m) as int / den as int;
            assert(q <= 10 * m) by (nonlinear_arith)
                requires
                    10 * m == den * q + (10 * m) as int % den as int,
                    (10 * m) as int % den as int >= 0,
                    den >= 1,
                    m >= 0,
            ;
        }
        n as u64
    }
}

proof fn lemma_whole_multiple(m: nat, t: nat)
    requires
        t >= 1074,
    ensures
        (m * pow2(t)) % pow2(1074) == 0,
{
    let one = pow2(1074) as int;
    let v = m * pow2((t - 1074) as nat);
    lemma_pow2_pos(1074);
    lemma_pow2_adds((t - 1074) as nat, 1074);
    assert(m * pow2(t) == v * one) by (nonlinear_arith)
        requires
            pow2(t) == pow2((t - 1074) as nat) * one,
            v == m * pow2((t - 1074) as nat),
    ;
    lemma_fundamental_div_mod_converse((m * pow2(t)) as int, one, v as int, 0);
}

/// A number that has a fraction, with one digit behind the point.
pub fn one_decimal(v: Double) -> (text: String)
    requires
        v.finite(),
        scaled(v.magnitude()) % pow2(1074) != 0,
    ensures
        text@ == one_decimal_text(v),
{
    let fixed = fixed_decimal(tenths_of(v.bits % SIGN), 1);
    if v.bits >= SIGN {
        let mut text: String = String::new();
        text.push('-');
        text.append(fixed.as_str());
        assert(text@ =~= one_decimal_text(v));
        text
    } else {
        fixed
    }
}

/// Whether a number is as good as whole.
pub open spec fn nearly_whole(v: Double) -> bool {
    absolute(difference(v, rounded(v))).less(ratio(1, 1_000_000))
}

fn is_nearly_whole(v: Double) -> (b: bool)
    ensures
        b == nearly_whole(v),
{
    let off = v.minus(v.round());
    Double { bits: off.bits % SIGN }.lt(fraction(1, 1_000_000))
}

/// A finite number that is not as good as whole has a fraction.
proof fn lemma_not_whole(v: Double)
    requires
        v.finite(),
        !nearly_whole(v),
    ensures
        scaled(v.magnitude()) % pow2(1074) != 0,
{
    if scaled(v.magnitude()) % pow2(1074) == 0 {
        // v - v is zero
        let n = negated(v);
        assert(n.magnitude() == v.magnitude() && n.negative() == !v.negative());
        assert(v.value() + n.value() == 0);
        assert(difference(v, rounded(v)).magnitude() == 0);
        lemma_millionth();
    }
}

pub proof fn lemma_millionth()
    ensures
        (Double { bits: 0 }).less(ratio(1, 1_000_000)),
{
    lemma_whole(1);
    lemma_whole(1_000_000);
    lemma_fraction_at_most_one(1, 1_000_000);
    let unit = pow2(1074) as int;
    lemma_pow2_pos(1074);
    lemma2_to64();
    lemma_pow2_adds(1054, 20);
    let low = lemma_double_of(1, 1054);
    assert(1 * pow2(1054) == pow2(1054));
    let num = (1 * unit) as nat * pow2(1074);
    let den = (1_000_000 * unit) as nat;
    assert(scaled(low) * den <= num) by (nonlinear_arith)
        requires
            unit == scaled(low) * 1_048_576,
            den == 1_000_000 * unit,
            num == unit * unit,
            unit > 0,
    ;
    assert(whole(1_000_000).magnitude() > 0) by {
        assert(scaled(0) == 0);
    }
    lemma_nearest_at_least(num, den, low);
    lemma_pow2_pos(1054);
    assert(low > 0) by {
        assert(scaled(0) == 0);
    }
}

/// The number nearest to a number of hertz, in thousands from a thousand on.
pub open spec fn freq_text(hz: Double) -> Seq<char> {
    if whole(1000).at_most(hz) {
        let k = quotient(hz, whole(1000));
        if nearly_whole(k) {
            signed_digits(as_i64(rounded_part(k))) + "k"@
        } else if k.finite() {
            one_decimal_text(k) + "k"@
        } else {
            "infk"@
        }
    } else {
        signed_digits(as_i64(rounded_part(hz)))
    }
}

/// A whole number, as far as it fits.
pub open spec fn as_i64(n: int) -> int {
    saturated(n, i64::MIN as int, i64::MAX as int)
}

/// The label of a frequency.
pub fn fmt_freq(hz: Double) -> (text: String)
    ensures
        text@ == freq_text(hz),
{
    let thousand = Double::from_i64(1000);
    if thousand.le(hz) {
        let k = hz.over(thousand);
        if is_nearly_whole(k) {
            let mut text = signed_decimal(k.round_i64());
            text.append("k");
            text
        } else if k.bits % SIGN < INFINITE {
            proof {
                lemma_not_whole(k);
            }
            let mut text = one_decimal(k);
            text.append("k");
            text
        } else {
            "infk".to_string()
        }
    } else {
        signed_decimal(hz.round_i64())
    }
}

/// A number with at least two places.
pub open spec fn two_places(n: int) -> Seq<char> {
    if n < 0 {
        signed_digits(n)
    } else {
        two_digits(n as nat)
    }
}

/// A number of seconds, or from a minute on minutes and seconds.
pub open spec fn time_text(s: Double) -> Seq<char> {
    if s.less(whole(60)) {
        if nearly_whole(s) {
            signed_digits(as_i64(rounded_part(s))) + "s"@
        } else if s.finite() {
            one_decimal_text(s) + "s"@
        } else {
            "-infs"@
        }
    } else {
        let m = as_i64(whole_part(floored(quotient(s, whole(60)))));
        let rest = difference(s, product(whole(m), whole(60)));
        signed_digits(m) + ":"@ + two_places(as_i64(rounded_part(rest)))
    }
}

/// The label of a time.
pub fn fmt_time(s: Double) -> (text: String)
    ensures
        text@ == time_text(s),
{
    let sixty = Double::from_i64(60);
    if s.lt(sixty) {
        if is_nearly_whole(s) {
            let mut text = signed_decimal(s.round_i64());
            text.append("s");
            text
        } else if s.bits % SIGN < INFINITE {
            proof {
                lemma_not_whole(s);
            }
            let mut text = one_decimal(s);
            text.append("s");
            text
        } else {
            "-infs".to_string()
        }
    } else {
        let m: i64 = s.over(sixty).floor().to_i64();
        let rest = s.minus(Double::from_i64(m).times(sixty));
        let sec: i64 = rest.round_i64();
        let mut text = signed_decimal(m);
        text.append(":");
        let tail = if sec < 0 {
            signed_decimal(sec)
        } else {
            two_digit_decimal(sec as u64)
        };
        text.append(tail.as_str());
        text
    }
}

} // verus!
