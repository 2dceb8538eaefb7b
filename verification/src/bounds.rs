//! How rounding keeps the order of numbers.
use crate::arith::{difference, negated, product, quotient, sum, whole, whole_part};
use crate::convert::law_whole_numbers_are_exact;
use crate::double::{lemma_scaled_increases, scaled, Double, HIDDEN, INFINITE};
use crate::rounding::{is_nearest, lemma_exact_is_nearest, nearest};
use crate::timeparse::half;
use vstd::arithmetic::div_mod::lemma_fundamental_div_mod_converse;
use vstd::arithmetic::power2::{
    lemma2_to64, lemma2_to64_rest, lemma_pow2_adds, lemma_pow2_pos, lemma_pow2_unfold, pow2,
};
use vstd::prelude::*;

verus! {

/// There is a nearest double.
pub proof fn lemma_nearest_exists(num: nat, den: nat)
    requires
        den > 0,
    ensures
        is_nearest(nearest(num, den), num, den),
{
    let mag = lemma_floor(num, den, INFINITE);
    if mag == INFINITE {
        if mag > 0 {
            let a = scaled((mag - 1) as u64) as int;
            let b = scaled(mag) as int;
            lemma_scaled_increases((mag - 1) as u64, mag);
            assert((a + b) * den < 2 * num) by (nonlinear_arith)
                requires
                    a < b,
                    b * den <= num,
                    den > 0,
            ;
        }
        assert(is_nearest(mag, num, den));
    } else {
        let low = scaled(mag) as int;
        let high = scaled((mag + 1) as u64) as int;
        let middle = (low + high) * den;
        if 2 * num < middle || (2 * num == middle && mag % 2 == 0) {
            if mag > 0 {
                let a = scaled((mag - 1) as u64) as int;
                lemma_scaled_increases((mag - 1) as u64, mag);
                assert((a + low) * den < 2 * num) by (nonlinear_arith)
                    requires
                        a < low,
                        low * den <= num,
                        den > 0,
                ;
            }
            assert(is_nearest(mag, num, den));
        } else {
            let up = (mag + 1) as u64;
            if up < INFINITE {
                let b = scaled((up + 1) as u64) as int;
                lemma_scaled_increases(up, (up + 1) as u64);
                assert(2 * num < (high + b) * den) by (nonlinear_arith)
                    requires
                        high < b,
                        num < high * den,
                        den > 0,
                ;
            }
            assert(is_nearest(up, num, den));
        }
    }
}

/// The largest magnitude up to `hi` that is not above a number.
proof fn lemma_floor(num: nat, den: nat, hi: u64) -> (mag: u64)
    requires
        hi <= INFINITE,
    ensures
        mag <= hi,
        scaled(mag) * den <= num,
        mag < hi ==> num < scaled((mag + 1) as u64) * den,
    decreases hi,
{
    if hi == 0 {
        assert(scaled(0) == 0);
        assert(0 * den == 0);
        0
    } else if scaled(hi) * den <= num {
        hi
    } else {
        lemma_floor(num, den, (hi - 1) as u64)
    }
}

/// A number that is not above a double is not rounded above it.
pub proof fn lemma_nearest_at_most(num: nat, den: nat, mag: u64)
    requires
        den > 0,
        mag <= INFINITE,
        num <= scaled(mag) * den,
    ensures
        nearest(num, den) <= mag,
{
    lemma_nearest_exists(num, den);
    let m = nearest(num, den);
    if m > mag {
        let a = scaled((m - 1) as u64) as int;
        let b = scaled(m) as int;
        let v = scaled(mag) as int;
        lemma_scaled_increases(mag, m);
        if mag < m - 1 {
            lemma_scaled_increases(mag, (m - 1) as u64);
        }
        assert(2 * num < (a + b) * den) by (nonlinear_arith)
            requires
                num <= v * den,
                v <= a,
                v < b,
                den > 0,
        ;
    }
}

/// A number that is not below a double is not rounded below it.
pub proof fn lemma_nearest_at_least(num: nat, den: nat, mag: u64)
    requires
        den > 0,
        mag <= INFINITE,
        scaled(mag) * den <= num,
    ensures
        mag <= nearest(num, den) <= INFINITE,
{
    lemma_nearest_exists(num, den);
    let m = nearest(num, den);
    if m < mag {
        let a = scaled(m) as int;
        let b = scaled((m + 1) as u64) as int;
        let v = scaled(mag) as int;
        lemma_scaled_increases(m, mag);
        if m + 1 < mag {
            lemma_scaled_increases((m + 1) as u64, mag);
        }
        assert((a + b) * den < 2 * num) by (nonlinear_arith)
            requires
                v * den <= num,
                a < v,
                b <= v,
                den > 0,
        ;
    }
}

/// Rounding keeps the order of numbers.
pub proof fn lemma_nearest_monotone(low: nat, high: nat, den: nat)
    requires
        den > 0,
        low <= high,
    ensures
        nearest(low, den) <= nearest(high, den),
{
    lemma_nearest_exists(low, den);
    lemma_nearest_exists(high, den);
    let m = nearest(low, den);
    let n = nearest(high, den);
    if m > n && low < high {
        let a = scaled((m - 1) as u64) as int;
        let b = scaled(m) as int;
        let v = scaled(n) as int;
        let w = scaled((n + 1) as u64) as int;
        lemma_scaled_increases(n, m);
        if n < m - 1 {
            lemma_scaled_increases(n, (m - 1) as u64);
            lemma_scaled_increases((n + 1) as u64, m);
        }
        assert((v + w) * den <= (a + b) * den) by (nonlinear_arith)
            requires
                v <= a,
                w <= b,
                den > 0,
        ;
    }
}

/// A larger magnitude is a larger number, and an equal one an equal one.
pub proof fn lemma_scaled_monotone(a: u64, b: u64)
    requires
        a <= b,
    ensures
        scaled(a) <= scaled(b),
{
    if a < b {
        lemma_scaled_increases(a, b);
    }
}

/// Whether a number is at least zero and finite.
pub open spec fn plain(a: Double) -> bool {
    !a.negative() && a.finite()
}

/// The magnitude of a whole number.
pub proof fn lemma_whole(n: int)
    requires
        0 <= n <= 0x20_0000_0000_0000,
    ensures
        plain(whole(n)),
        scaled(whole(n).magnitude()) == n * pow2(1074),
{
    law_whole_numbers_are_exact(n);
    lemma_pow2_pos(1074);
    assert(n * pow2(1074) >= 0) by (nonlinear_arith)
        requires
            n >= 0,
    ;
    if whole(n).negative() {
        assert(scaled(whole(n).magnitude()) == 0);
        if whole(n).magnitude() > 0 {
            lemma_scaled_increases(0, whole(n).magnitude());
        }
        lemma_nearest_exists(n as nat * pow2(1074), 1);
    }
}

/// Whole numbers add up exactly.
pub proof fn lemma_whole_sum(a: int, b: int)
    requires
        0 <= a,
        0 <= b,
        a + b <= 0x20_0000_0000_0000,
    ensures
        sum(whole(a), whole(b)) == whole(a + b),
{
    lemma_whole(a);
    lemma_whole(b);
    lemma_whole(a + b);
    lemma_pow2_pos(1074);
    let unit = pow2(1074) as int;
    assert(a * unit + b * unit == (a + b) * unit) by (nonlinear_arith);
    if (a + b) * unit == 0 {
        lemma_nearest_at_most(0, 1, 0);
    }
}

/// Whole numbers multiply exactly.
pub proof fn lemma_whole_product(a: int, b: int)
    requires
        0 <= a <= 0x20_0000_0000_0000,
        0 <= b <= 0x20_0000_0000_0000,
        a * b <= 0x20_0000_0000_0000,
    ensures
        product(whole(a), whole(b)) == whole(a * b),
{
    assert(a * b >= 0) by (nonlinear_arith)
        requires
            a >= 0,
            b >= 0,
    ;
    lemma_whole(a);
    lemma_whole(b);
    lemma_whole(a * b);
    lemma_pow2_pos(1074);
    let unit = pow2(1074);
    let num = scaled(whole(a).magnitude()) * scaled(whole(b).magnitude());
    let mag = whole(a * b).magnitude();
    assert(num == scaled(mag) * unit) by (nonlinear_arith)
        requires
            num == (a * unit) * (b * unit),
            scaled(mag) == (a * b) * unit,
    ;
    lemma_nearest_at_most(num, unit, mag);
    lemma_nearest_at_least(num, unit, mag);
}

/// Whole numbers are taken off each other exactly.
pub proof fn lemma_whole_difference(a: int, b: int)
    requires
        0 <= b <= a <= 0x20_0000_0000_0000,
    ensures
        difference(whole(a), whole(b)) == whole(a - b),
{
    lemma_whole(a);
    lemma_whole(b);
    lemma_whole(a - b);
    lemma_pow2_pos(1074);
    let unit = pow2(1074) as int;
    assert(a * unit - b * unit == (a - b) * unit) by (nonlinear_arith);
    assert((a - b) * unit >= 0) by (nonlinear_arith)
        requires
            a >= b,
            unit > 0,
    ;
    assert(negated(whole(b)).value() == -(b * unit));
    if (a - b) * unit == 0 {
        lemma_nearest_at_most(0, 1, 0);
    }
}

/// A multiple of a whole number is divided by it exactly.
pub proof fn lemma_whole_quotient(q: int, b: int)
    requires
        0 <= q <= 0x20_0000_0000_0000,
        1 <= b <= 0x20_0000_0000_0000,
        q * b <= 0x20_0000_0000_0000,
    ensures
        quotient(whole(q * b), whole(b)) == whole(q),
{
    assert(q * b >= 0) by (nonlinear_arith)
        requires
            q >= 0,
            b >= 1,
    ;
    lemma_whole(q);
    lemma_whole(b);
    lemma_whole(q * b);
    lemma_pow2_pos(1074);
    let unit = pow2(1074);
    let num = scaled(whole(q * b).magnitude()) * unit;
    let den = scaled(whole(b).magnitude());
    let mag = whole(q).magnitude();
    assert(den > 0) by (nonlinear_arith)
        requires
            den == b * unit,
            b >= 1,
            unit > 0,
    ;
    assert(whole(b).magnitude() > 0) by {
        assert(scaled(0) == 0);
    }
    assert(num == scaled(mag) * den) by (nonlinear_arith)
        requires
            num == ((q * b) * unit) * unit,
            den == b * unit,
            scaled(mag) == q * unit,
    ;
    lemma_nearest_at_most(num, den, mag);
    lemma_nearest_at_least(num, den, mag);
}

/// A sum that is a double is exact.
pub proof fn lemma_exact_sum(a: Double, b: Double, r: Double)
    requires
        plain(a),
        plain(b),
        plain(r),
        scaled(a.magnitude()) + scaled(b.magnitude()) == scaled(r.magnitude()),
    ensures
        sum(a, b) == r,
{
    let s = scaled(r.magnitude());
    assert(scaled(0) == 0);
    assert(s * 1 == s);
    if s == 0 {
        if r.magnitude() > 0 {
            lemma_scaled_increases(0, r.magnitude());
        }
    } else {
        lemma_exact_is_nearest(r.magnitude(), s, 1);
    }
}

/// A difference that is a double is exact.
pub proof fn lemma_exact_difference(a: Double, b: Double, r: Double)
    requires
        plain(a),
        plain(b),
        plain(r),
        scaled(a.magnitude()) - scaled(b.magnitude()) == scaled(r.magnitude()),
    ensures
        difference(a, b) == r,
{
    let s = scaled(r.magnitude());
    assert(negated(b).value() == -(scaled(b.magnitude()) as int));
    assert(scaled(0) == 0);
    assert(s * 1 == s);
    if s == 0 {
        if r.magnitude() > 0 {
            lemma_scaled_increases(0, r.magnitude());
        }
    } else {
        lemma_exact_is_nearest(r.magnitude(), s, 1);
    }
}

/// A product that is a double is exact.
pub proof fn lemma_exact_product(a: Double, b: Double, r: Double)
    requires
        plain(a),
        plain(b),
        plain(r),
        scaled(a.magnitude()) * scaled(b.magnitude()) == scaled(r.magnitude()) * pow2(1074),
    ensures
        product(a, b) == r,
{
    lemma_pow2_pos(1074);
    let num = scaled(a.magnitude()) * scaled(b.magnitude());
    lemma_exact_is_nearest(r.magnitude(), num, pow2(1074));
}

/// A quotient that is a double is exact.
pub proof fn lemma_exact_quotient(a: Double, b: Double, r: Double)
    requires
        plain(a),
        plain(b),
        plain(r),
        b.magnitude() > 0,
        scaled(a.magnitude()) * pow2(1074) == scaled(r.magnitude()) * scaled(b.magnitude()),
    ensures
        quotient(a, b) == r,
{
    lemma_scaled_increases(0, b.magnitude());
    let num = scaled(a.magnitude()) * pow2(1074);
    lemma_exact_is_nearest(r.magnitude(), num, scaled(b.magnitude()));
}

/// A fraction of at most one is rounded to at most one.
pub proof fn lemma_fraction_at_most_one(i: int, n: int)
    requires
        0 <= i <= n,
        1 <= n <= 0x20_0000_0000_0000,
    ensures
        plain(quotient(whole(i), whole(n))),
        quotient(whole(i), whole(n)).magnitude() <= whole(1).magnitude(),
{
    lemma_whole(i);
    lemma_whole(n);
    lemma_whole(1);
    let unit = pow2(1074) as int;
    lemma_pow2_pos(1074);
    let num = scaled(whole(i).magnitude()) * pow2(1074);
    let den = scaled(whole(n).magnitude());
    assert(den > 0) by (nonlinear_arith)
        requires
            den == n * unit,
            n >= 1,
            unit > 0,
    ;
    assert(whole(n).magnitude() > 0) by {
        assert(scaled(0) == 0);
    }
    assert(num <= unit * den) by (nonlinear_arith)
        requires
            num == (i * unit) * unit,
            den == n * unit,
            i <= n,
            unit > 0,
    ;
    assert(scaled(whole(1).magnitude()) * den == unit * den) by {
        assert(1 * unit == unit);
    }
    lemma_nearest_at_most(num, den, whole(1).magnitude());
}

/// A number of at most one times a whole number is rounded to at most that number.
pub proof fn lemma_part_at_most(a: Double, n: int)
    requires
        plain(a),
        a.magnitude() <= whole(1).magnitude(),
        0 <= n <= 0x20_0000_0000_0000,
    ensures
        plain(product(a, whole(n))),
        product(a, whole(n)).magnitude() <= whole(n).magnitude(),
{
    lemma_whole(1);
    lemma_whole(n);
    let unit = pow2(1074) as int;
    lemma_pow2_pos(1074);
    let s = scaled(a.magnitude()) as int;
    let one = scaled(whole(1).magnitude()) as int;
    if a.magnitude() < whole(1).magnitude() {
        lemma_scaled_increases(a.magnitude(), whole(1).magnitude());
    }
    assert(1 * unit == unit) by (nonlinear_arith);
    let m = scaled(whole(n).magnitude()) as int;
    assert(s * m <= m * unit) by (nonlinear_arith)
        requires
            0 <= s <= unit,
            m >= 0,
    ;
    lemma_nearest_at_most((s * m) as nat, pow2(1074), whole(n).magnitude());
}

/// A sum of a number and another one is at most a double that it does not exceed.
pub proof fn lemma_sum_at_most(a: Double, b: Double, top: Double)
    requires
        plain(a),
        plain(b),
        plain(top),
        scaled(a.magnitude()) + scaled(b.magnitude()) <= scaled(top.magnitude()),
    ensures
        plain(sum(a, b)),
        sum(a, b).magnitude() <= top.magnitude(),
{
    let v = scaled(a.magnitude()) + scaled(b.magnitude());
    if v != 0 {
        lemma_nearest_at_most(v, 1, top.magnitude());
    }
}

/// A sum of a number and another one is at least a double that it reaches.
pub proof fn lemma_sum_at_least(a: Double, b: Double, low: Double)
    requires
        plain(a),
        plain(b),
        plain(low),
        scaled(a.magnitude()) + scaled(b.magnitude()) >= scaled(low.magnitude()),
    ensures
        !sum(a, b).negative(),
        !sum(a, b).nan(),
        sum(a, b).magnitude() >= low.magnitude(),
{
    let v = scaled(a.magnitude()) + scaled(b.magnitude());
    if v != 0 {
        lemma_nearest_at_least(v, 1, low.magnitude());
    } else {
        if low.magnitude() > 0 {
            lemma_scaled_increases(0, low.magnitude());
        }
    }
}

/// The whole part of a number below the next whole number.
pub proof fn lemma_whole_part_between(a: Double, low: int, high: nat)
    requires
        !a.negative(),
        !a.nan(),
        low * pow2(1074) <= scaled(a.magnitude()) < (high + 1) * pow2(1074),
    ensures
        low <= whole_part(a) <= high,
{
    let unit = pow2(1074) as int;
    lemma_pow2_pos(1074);
    let v = scaled(a.magnitude()) as int;
    vstd::arithmetic::div_mod::lemma_fundamental_div_mod(v, unit);
    let q = v / unit;
    assert(q <= high && low <= q) by (nonlinear_arith)
        requires
            v == unit * q + v % unit,
            0 <= v % unit < unit,
            v < (high + 1) * unit,
            low * unit <= v,
            unit > 0,
    ;
}

/// A whole number and a half.
pub open spec fn and_half(n: int) -> Double {
    quotient(whole(2 * n + 1), whole(2))
}

/// A whole number and a half is a double.
pub proof fn lemma_whole_and_half(n: int)
    requires
        0 <= n < 0x8_0000_0000_0000,
    ensures
        plain(and_half(n)),
        2 * scaled(and_half(n).magnitude()) == (2 * n + 1) * pow2(1074),
{
    let k = 2 * n + 1;
    lemma_whole(k);
    lemma_whole(2);
    let unit = pow2(1074) as int;
    let under = pow2(1073) as int;
    lemma_pow2_pos(1073);
    lemma_pow2_unfold(1074);
    let num = (k * unit) as nat * pow2(1074);
    let den = (2 * unit) as nat;
    let mag = lemma_double_of(k as nat, 1073);
    assert(scaled(mag) * den == num) by (nonlinear_arith)
        requires
            scaled(mag) == k * under,
            den == 2 * unit,
            num == (k * unit) * unit,
            unit == 2 * under,
    ;
    lemma_exact_is_nearest(mag, num, den);
    assert(whole(2).magnitude() > 0) by {
        assert(scaled(0) == 0);
    }
    assert(2 * (k * under) == k * unit) by (nonlinear_arith)
        requires
            unit == 2 * under,
    ;
}

/// A half is a double.
pub proof fn lemma_half()
    ensures
        plain(half()),
        2 * scaled(half().magnitude()) == pow2(1074),
{
    lemma_whole_and_half(0);
    assert(1 * pow2(1074) == pow2(1074));
}

/// A number of up to 53 bits times a power of two is a double.
pub proof fn lemma_double_of(k: nat, t: nat) -> (mag: u64)
    requires
        0 < k < 2 * HIDDEN,
        52 <= t <= 2000,
    ensures
        mag < INFINITE,
        scaled(mag) == k * pow2(t),
{
    if k >= HIDDEN {
        let mag = (t * HIDDEN + k) as u64;
        lemma_fundamental_div_mod_converse(mag as int, HIDDEN as int, t as int + 1, k - HIDDEN);
        mag
    } else {
        lemma2_to64();
        assert(k * pow2(0) == k);
        lemma_double_below(k, t, 0)
    }
}

proof fn lemma_double_below(k: nat, t: nat, up: nat) -> (mag: u64)
    requires
        0 < k * pow2(up),
        k * pow2(up) < 2 * HIDDEN,
        up <= 52,
        52 <= t <= 2000,
    ensures
        mag < INFINITE,
        scaled(mag) == k * pow2(t),
    decreases 52 - up,
{
    let w = k * pow2(up);
    if w >= HIDDEN {
        let p = (t - up) as nat;
        let mag = (p * HIDDEN + w) as u64;
        lemma_fundamental_div_mod_converse(mag as int, HIDDEN as int, p as int + 1, w - HIDDEN);
        lemma_pow2_adds(up, p);
        assert(w * pow2(p) == k * (pow2(up) * pow2(p))) by (nonlinear_arith)
            requires
                w == k * pow2(up),
        ;
        mag
    } else {
        if up == 52 {
            lemma2_to64_rest();
            assert(k * pow2(52) >= pow2(52)) by (nonlinear_arith)
                requires
                    k * pow2(52) > 0,
            ;
        }
        lemma_pow2_unfold(up + 1);
        assert(k * (2 * pow2(up)) == 2 * (k * pow2(up))) by (nonlinear_arith);
        lemma_double_below(k, t, up + 1)
    }
}

} // verus!
