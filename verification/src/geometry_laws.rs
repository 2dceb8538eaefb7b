//! What holds of how an input is laid out.
use crate::arith::{quotient, sum, whole, whole_part};
use crate::bounds::{
    lemma_double_of, lemma_half, lemma_nearest_at_least, lemma_nearest_at_most, lemma_sum_at_least,
    lemma_sum_at_most, lemma_whole, lemma_whole_and_half, lemma_whole_part_between, plain,
};
use crate::convert::ceiled;
use crate::double::{lemma_scaled_increases, scaled, Double};
use crate::geometry::{even_step, raised_div, rounded_div};
use crate::timeparse::half;
use vstd::arithmetic::div_mod::lemma_fundamental_div_mod;
use vstd::arithmetic::power2::{
    lemma2_to64, lemma_pow2_adds, lemma_pow2_pos, lemma_pow2_strictly_increases, lemma_pow2_unfold,
    pow2,
};
use vstd::prelude::*;

verus! {

/// The steps of a column cover it to within half a step.
pub proof fn law_steps_cover_a_column(span: int, step: int)
    requires
        1 <= span,
        1 <= step,
    ensures
        ({
            let even = even_step(span, step);
            let covered = even * rounded_div(span, even);
            even >= 1 ==> -even <= 2 * (covered - span) <= even
        }),
{
    let even = even_step(span, step);
    if even >= 1 {
        let n = rounded_div(span, even);
        lemma_fundamental_div_mod(2 * span + even, 2 * even);
        assert(2 * even * n == 2 * (even * n)) by (nonlinear_arith);
    }
}

/// A power of two between two times and four times a number.
proof fn lemma_power_above(b: int) -> (j: nat)
    requires
        1 <= b,
    ensures
        1 <= j,
        2 * b <= pow2(j) < 4 * b,
    decreases b,
{
    lemma2_to64();
    if b == 1 {
        1
    } else {
        let h = b / 2;
        let j = lemma_power_above(h);
        lemma_pow2_unfold((j + 1) as nat);
        lemma_pow2_unfold((j + 2) as nat);
        if 2 * b <= pow2((j + 1) as nat) {
            (j + 1) as nat
        } else {
            (j + 2) as nat
        }
    }
}

/// The unit as a product of two powers of two.
proof fn lemma_unit_splits(b: int) -> (j: nat)
    requires
        1 <= b <= i32::MAX,
    ensures
        1 <= j <= 32,
        2 * b <= pow2(j) < 4 * b,
        pow2(j) == 2 * pow2((j - 1) as nat),
        pow2(1074) == pow2(j) * pow2((1074 - j) as nat),
{
    let j = lemma_power_above(b);
    lemma2_to64();
    lemma_pow2_unfold(33);
    if j >= 33 {
        if j > 33 {
            lemma_pow2_strictly_increases(33, j);
        }
        assert(false);
    }
    lemma_pow2_unfold(j);
    lemma_pow2_adds(j, (1074 - j) as nat);
    j
}

/// A quotient of whole numbers below `n` halves is below them as a double.
proof fn lemma_quotient_below(a: int, b: int, n: int)
    requires
        1 <= a <= i32::MAX,
        1 <= b <= i32::MAX,
        2 * a < n * b <= 2 * a + 2 * b,
    ensures
        plain(quotient(whole(a), whole(b))),
        2 * scaled(quotient(whole(a), whole(b)).magnitude()) < n * pow2(1074),
        exists|top: Double| #[trigger]
            plain(top) && scaled(quotient(whole(a), whole(b)).magnitude()) + scaled(
                half().magnitude(),
            ) <= scaled(top.magnitude()) && 2 * scaled(top.magnitude()) < (n + 1) * pow2(1074),
{
    lemma_whole(a);
    lemma_whole(b);
    lemma_half();
    let j = lemma_unit_splits(b);
    let unit = pow2(1074) as int;
    let p = pow2(j) as int;
    let h = pow2((j - 1) as nat) as int;
    let t = pow2((1074 - j) as nat) as int;
    lemma_pow2_pos((1074 - j) as nat);
    lemma_pow2_pos((j - 1) as nat);
    let k = n * h - 1;
    assert(n >= 1) by (nonlinear_arith)
        requires
            0 < n * b,
            b >= 1,
    ;
    assert(n * b <= n * h <= 2 * (n * b)) by (nonlinear_arith)
        requires
            n >= 1,
            b <= h,
            h < 2 * b,
    ;
    assert(2 <= k && k + h < 0x10_0000_0000);
    let mag = lemma_double_of(k as nat, (1074 - j) as nat);
    let num = scaled(whole(a).magnitude()) * pow2(1074);
    let den = scaled(whole(b).magnitude());
    assert(a * p <= k * b) by (nonlinear_arith)
        requires
            p == 2 * h,
            2 * a + 1 <= n * b,
            b <= h,
            k == n * h - 1,
            h >= 1,
    ;
    assert(num <= (k * t) * den && den > 0) by (nonlinear_arith)
        requires
            num == (a * unit) * unit,
            den == b * unit,
            unit == p * t,
            a * p <= k * b,
            t > 0,
            p > 0,
            b >= 1,
    ;
    assert(whole(b).magnitude() != 0);
    lemma_nearest_at_most(num, den, mag);
    let q = quotient(whole(a), whole(b));
    assert(q.magnitude() <= mag);
    if q.magnitude() < mag {
        lemma_scaled_increases(q.magnitude(), mag);
    }
    assert(2 * (k * t) < n * unit) by (nonlinear_arith)
        requires
            k == n * h - 1,
            unit == p * t,
            p == 2 * h,
            t > 0,
    ;
    let above = k + h;
    let high = lemma_double_of(above as nat, (1074 - j) as nat);
    let top = Double { bits: high };
    assert(2 * (above * t) == 2 * (k * t) + unit) by (nonlinear_arith)
        requires
            above == k + h,
            unit == p * t,
            p == 2 * h,
    ;
    assert((n + 1) * unit == n * unit + unit) by (nonlinear_arith);
    assert(plain(top));
}

/// A quotient of whole numbers that is not below `n` halves is not as a double.
proof fn lemma_quotient_not_below(a: int, b: int, n: int)
    requires
        1 <= a <= i32::MAX,
        1 <= b <= i32::MAX,
        0 <= n,
        n * b <= 2 * a,
    ensures
        n * pow2(1074) <= 2 * scaled(quotient(whole(a), whole(b)).magnitude()),
{
    lemma_whole(a);
    lemma_whole(b);
    lemma_pow2_pos(1074);
    let unit = pow2(1074) as int;
    let num = scaled(whole(a).magnitude()) * pow2(1074);
    let den = scaled(whole(b).magnitude());
    assert(n <= 2 * a) by (nonlinear_arith)
        requires
            n * b <= 2 * a,
            b >= 1,
            n >= 0,
    ;
    let low = if n % 2 == 1 {
        lemma_whole_and_half(n / 2);
        assert(2 * (n / 2) + 1 == n);
        crate::bounds::and_half(n / 2)
    } else {
        lemma_whole(n / 2);
        assert(2 * ((n / 2) * unit) == n * unit) by (nonlinear_arith)
            requires
                n == 2 * (n / 2),
        ;
        whole(n / 2)
    };
    let s = scaled(low.magnitude()) as int;
    assert(2 * s == n * unit);
    assert(s * den <= num && den > 0) by (nonlinear_arith)
        requires
            2 * s == n * unit,
            num == (a * unit) * unit,
            den == b * unit,
            n * b <= 2 * a,
            unit > 0,
            b >= 1,
    ;
    assert(whole(b).magnitude() != 0);
    lemma_nearest_at_least(num, den, low.magnitude());
    let q = quotient(whole(a), whole(b));
    if low.magnitude() < q.magnitude() {
        lemma_scaled_increases(low.magnitude(), q.magnitude());
    }
}

/// Rounding the quotient of two whole numbers gives the same in doubles as in whole
/// numbers.
pub proof fn law_rounded_quotients_are_exact(a: int, b: int)
    requires
        1 <= a <= i32::MAX,
        1 <= b <= i32::MAX,
    ensures
        whole_part(sum(quotient(whole(a), whole(b)), half())) == rounded_div(a, b),
{
    let k = rounded_div(a, b);
    lemma_fundamental_div_mod(2 * a + b, 2 * b);
    assert(2 * b * k <= 2 * a + b < 2 * b * k + 2 * b);
    assert(k >= 0) by (nonlinear_arith)
        requires
            0 <= 2 * a + b < 2 * b * k + 2 * b,
            b >= 1,
    ;
    let n = 2 * k + 1;
    assert(2 * a < n * b <= 2 * a + 2 * b) by (nonlinear_arith)
        requires
            2 * b * k <= 2 * a + b < 2 * b * k + 2 * b,
            n == 2 * k + 1,
    ;
    lemma_quotient_below(a, b, n);
    lemma_half();
    lemma_pow2_pos(1074);
    let unit = pow2(1074) as int;
    let q = quotient(whole(a), whole(b));
    let top = choose|top: Double| #[trigger]
        plain(top) && scaled(q.magnitude()) + scaled(half().magnitude()) <= scaled(
            top.magnitude(),
        ) && 2 * scaled(top.magnitude()) < (n + 1) * pow2(1074);
    lemma_sum_at_most(q, half(), top);
    let r = sum(q, half());
    if r.magnitude() < top.magnitude() {
        lemma_scaled_increases(r.magnitude(), top.magnitude());
    }
    assert((n + 1) * unit == 2 * ((k + 1) * unit)) by (nonlinear_arith)
        requires
            n == 2 * k + 1,
    ;
    if k >= 1 {
        assert((2 * k - 1) * b <= 2 * a) by (nonlinear_arith)
            requires
                2 * b * k <= 2 * a + b,
        ;
        lemma_quotient_not_below(a, b, 2 * k - 1);
        assert(k <= a) by (nonlinear_arith)
            requires
                (2 * k - 1) * b <= 2 * a,
                k >= 1,
                b >= 1,
        ;
        lemma_whole(k);
        assert((2 * k - 1) * unit + unit == 2 * (k * unit)) by (nonlinear_arith);
        lemma_sum_at_least(q, half(), whole(k));
        if whole(k).magnitude() < r.magnitude() {
            lemma_scaled_increases(whole(k).magnitude(), r.magnitude());
        }
    } else {
        assert(0 * pow2(1074) == 0);
    }
    lemma_whole_part_between(r, k, k as nat);
}

/// Raising the quotient of two whole numbers gives the same in doubles as in whole
/// numbers.
pub proof fn law_raised_quotients_are_exact(a: int, b: int)
    requires
        1 <= a <= i32::MAX,
        1 <= b <= i32::MAX,
    ensures
        ceiled(quotient(whole(a), whole(b))) == whole(raised_div(a, b)),
{
    let c = raised_div(a, b);
    lemma_fundamental_div_mod(a + b - 1, b);
    assert(b * c <= a + b - 1 < b * c + b);
    assert(c >= 1) by (nonlinear_arith)
        requires
            b <= a + b - 1 < b * c + b,
            b >= 1,
    ;
    assert((c - 1) * b < a <= c * b) by (nonlinear_arith)
        requires
            b * c <= a + b - 1 < b * c + b,
    ;
    assert(c <= a) by (nonlinear_arith)
        requires
            (c - 1) * b < a,
            b >= 1,
            c >= 1,
    ;
    lemma_whole(a);
    lemma_whole(b);
    lemma_whole(c);
    lemma_pow2_pos(1074);
    let unit = pow2(1074) as int;
    let num = scaled(whole(a).magnitude()) * pow2(1074);
    let den = scaled(whole(b).magnitude());
    let s = scaled(whole(c).magnitude()) as int;
    assert(num <= s * den && den > 0) by (nonlinear_arith)
        requires
            num == (a * unit) * unit,
            den == b * unit,
            s == c * unit,
            a <= c * b,
            unit > 0,
            b >= 1,
    ;
    assert(whole(b).magnitude() != 0);
    lemma_nearest_at_most(num, den, whole(c).magnitude());
    let q = quotient(whole(a), whole(b));
    // above c - 1, by at least a part that doubles of this size can tell
    let j = lemma_unit_splits(b);
    let p = pow2(j) as int;
    let t = pow2((1074 - j) as nat) as int;
    lemma_pow2_pos((1074 - j) as nat);
    let k = (c - 1) * p + 1;
    assert(1 <= k < 0x4_0000_0000) by (nonlinear_arith)
        requires
            k == (c - 1) * p + 1,
            (c - 1) * b < a,
            1 <= c,
            0 < p < 4 * b,
            a <= 0x7FFF_FFFF,
    ;
    let mag = lemma_double_of(k as nat, (1074 - j) as nat);
    assert(((c - 1) * b + 1) * p <= a * p) by (nonlinear_arith)
        requires
            (c - 1) * b + 1 <= a,
            0 < p,
    ;
    assert(((c - 1) * p + 1) * b == (c - 1) * b * p + b) by (nonlinear_arith);
    assert(((c - 1) * b + 1) * p == (c - 1) * b * p + p) by (nonlinear_arith);
    assert(k * b <= a * p);
    assert((k * t) * den <= num) by (nonlinear_arith)
        requires
            num == (a * unit) * unit,
            den == b * unit,
            unit == p * t,
            k * b <= a * p,
            t > 0,
            p > 0,
    ;
    lemma_nearest_at_least(num, den, mag);
    if mag < q.magnitude() {
        lemma_scaled_increases(mag, q.magnitude());
    }
    if q.magnitude() < whole(c).magnitude() {
        lemma_scaled_increases(q.magnitude(), whole(c).magnitude());
    }
    let v = scaled(q.magnitude()) as int;
    assert((c - 1) * unit < k * t) by (nonlinear_arith)
        requires
            k == (c - 1) * p + 1,
            unit == p * t,
            t > 0,
    ;
    lemma_fundamental_div_mod(v, unit);
    if v % unit == 0 {
        let w = v / unit;
        assert(w == c) by (nonlinear_arith)
            requires
                (c - 1) * unit < unit * w <= c * unit,
                unit > 0,
        ;
        assert(v == s) by (nonlinear_arith)
            requires
                v == unit * w,
                w == c,
                s == c * unit,
        ;
        if q.magnitude() < whole(c).magnitude() {
            assert(false);
        }
        assert(q.bits == whole(c).bits);
    } else {
        assert(v < c * unit) by {
            if v == c * unit {
                vstd::arithmetic::div_mod::lemma_mod_multiples_basic(c, unit);
            }
        }
        let w = v / unit;
        assert(w == c - 1) by (nonlinear_arith)
            requires
                (c - 1) * unit < v < c * unit,
                v == unit * w + v % unit,
                0 <= v % unit < unit,
        ;
    }
}

/// The step and the steps of a column come out the same when they are worked out in
/// doubles: the span over the quotient raised, rounded, and the span over that.
pub proof fn law_even_steps_are_exact(span: int, step: int)
    requires
        1 <= span <= i32::MAX,
        1 <= step <= i32::MAX,
    ensures
        even_step(span, step) == whole_part(
            sum(quotient(whole(span), ceiled(quotient(whole(span), whole(step)))), half()),
        ),
        even_step(span, step) >= 1 ==> rounded_div(span, even_step(span, step)) == whole_part(
            sum(quotient(whole(span), whole(even_step(span, step))), half()),
        ),
{
    let c = raised_div(span, step);
    law_raised_quotients_are_exact(span, step);
    lemma_fundamental_div_mod(span + step - 1, step);
    assert(1 <= c <= span) by (nonlinear_arith)
        requires
            step * c <= span + step - 1 < step * c + step,
            1 <= span,
            1 <= step,
    ;
    law_rounded_quotients_are_exact(span, c);
    let even = even_step(span, step);
    if even >= 1 {
        lemma_fundamental_div_mod(2 * span + c, 2 * c);
        assert(even <= span) by (nonlinear_arith)
            requires
                2 * c * even <= 2 * span + c,
                1 <= c <= span,
                even >= 1,
        ;
        law_rounded_quotients_are_exact(span, even);
    }
}

} // verus!
