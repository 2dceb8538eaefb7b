//! Numbers up to 2^11 that are as good as exact: rounding moves them by less than 2^-40.
use crate::arith::{negated, product, sum, whole};
use crate::bounds::{
    lemma_double_of, lemma_nearest_at_least, lemma_nearest_at_most, lemma_scaled_monotone,
    lemma_whole, plain,
};
use crate::double::{scaled, Double, INFINITE};
use crate::rounding::nearest;
use crate::window::ratio;
use vstd::arithmetic::div_mod::lemma_fundamental_div_mod;
use vstd::arithmetic::power2::{lemma2_to64_rest, lemma_pow2_adds, lemma_pow2_pos, pow2};
use vstd::prelude::*;

verus! {

/// 2^-40, in units.
pub open spec fn crumb() -> nat {
    pow2(1034)
}

/// Below 2^12, rounding moves a number by less than 2^-40.
pub proof fn lemma_rounding_moves_a_crumb(num: nat, den: nat)
    requires
        den > 0,
        num < 0x10_0000_0000_0000 * (crumb() * den),
    ensures
        nearest(num, den) < INFINITE,
        -(crumb() * den) <= scaled(nearest(num, den)) * den - num <= crumb() * den,
{
    lemma_pow2_pos(1034);
    let g = crumb() as int;
    let d = den as int;
    let gd = g * d;
    assert(gd > 0) by (nonlinear_arith)
        requires
            g > 0,
            d > 0,
            gd == g * d,
    ;
    let lo = num as int / gd;
    lemma_fundamental_div_mod(num as int, gd);
    assert(0 <= lo < 0x10_0000_0000_0000) by (nonlinear_arith)
        requires
            num == gd * lo + num as int % gd,
            0 <= num as int % gd < gd,
            0 <= num < 0x10_0000_0000_0000 * gd,
            gd > 0,
    ;
    let high = lemma_double_of((lo + 1) as nat, 1034);
    let v = scaled(nearest(num, den)) as int;
    assert(num <= scaled(high) * den) by (nonlinear_arith)
        requires
            scaled(high) == (lo + 1) * g,
            num == gd * lo + num as int % gd,
            num as int % gd < gd,
            gd == g * d,
            den == d,
    ;
    lemma_nearest_at_most(num, den, high);
    lemma_scaled_monotone(nearest(num, den), high);
    assert(v * d <= num + gd) by (nonlinear_arith)
        requires
            v <= (lo + 1) * g,
            num == gd * lo + num as int % gd,
            num as int % gd >= 0,
            gd == g * d,
            d > 0,
    ;
    if lo > 0 {
        let low = lemma_double_of(lo as nat, 1034);
        assert(scaled(low) * den <= num) by (nonlinear_arith)
            requires
                scaled(low) == lo * g,
                num == gd * lo + num as int % gd,
                num as int % gd >= 0,
                gd == g * d,
                den == d,
        ;
        lemma_nearest_at_least(num, den, low);
        lemma_scaled_monotone(low, nearest(num, den));
        assert(v * d >= num - gd) by (nonlinear_arith)
            requires
                v >= lo * g,
                num == gd * lo + num as int % gd,
                num as int % gd < gd,
                gd == g * d,
                d > 0,
        ;
    } else {
        assert(v * d >= 0) by (nonlinear_arith)
            requires
                v >= 0,
                d > 0,
        ;
        assert(gd * lo == 0) by (nonlinear_arith)
            requires
                lo == 0,
        ;
    }
}

/// One, in crumbs.
pub proof fn lemma_one_in_crumbs()
    ensures
        pow2(1074) == 0x100_0000_0000 * crumb(),
        crumb() > 0,
{
    lemma_pow2_adds(40, 1034);
    lemma2_to64_rest();
    lemma_pow2_pos(1034);
}

/// A quotient of up to 2000, but for a crumb, where the divisor is a double.
pub proof fn lemma_fraction_is_near(n: int, d: int)
    requires
        0 <= n <= 2000 * d,
        n <= 0x20_0000_0000_0000,
        1 <= d,
        plain(whole(d)),
        scaled(whole(d).magnitude()) == d * pow2(1074),
    ensures
        plain(ratio(n, d)),
        -(crumb() * d) <= ratio(n, d).value() * d - n * pow2(1074) <= crumb() * d,
{
    lemma_whole(n);
    lemma_one_in_crumbs();
    lemma_pow2_pos(1074);
    let unit = pow2(1074) as int;
    let g = crumb() as int;
    let num = scaled(whole(n).magnitude()) * pow2(1074);
    let den = scaled(whole(d).magnitude());
    assert(den > 0) by (nonlinear_arith)
        requires
            den == d * unit,
            d >= 1,
            unit > 0,
    ;
    assert(whole(d).magnitude() > 0) by {
        assert(scaled(0) == 0);
    }
    assert(num < 0x10_0000_0000_0000 * (crumb() * den)) by (nonlinear_arith)
        requires
            num == (n * unit) * unit,
            den == d * unit,
            unit == 0x100_0000_0000 * g,
            crumb() == g,
            0 <= n <= 2000 * d,
            d >= 1,
            unit > 0,
            g > 0,
    {
        assert((n * unit) * unit <= (2000 * d * unit) * unit) by (nonlinear_arith)
            requires
                0 <= n <= 2000 * d,
                unit > 0,
        ;
        assert((2000 * d * unit) * unit == 0x7_D000_0000_0000 * (g * (d * unit)))
            by (nonlinear_arith)
            requires
                unit == 0x100_0000_0000 * g,
        ;
        assert(g * (d * unit) > 0) by (nonlinear_arith)
            requires
                g > 0,
                d >= 1,
                unit > 0,
        ;
    }
    lemma_rounding_moves_a_crumb(num, den);
    let v = ratio(n, d).value();
    assert(-(g * d) <= v * d - n * unit <= g * d) by (nonlinear_arith)
        requires
            -(g * den) <= v * den - num <= g * den,
            num == (n * unit) * unit,
            den == d * unit,
            unit > 0,
    ;
}

/// A quotient of whole numbers of up to 2000, but for a crumb.
pub proof fn lemma_ratio_is_near(n: int, d: int)
    requires
        0 <= n <= 2000 * d,
        1 <= d <= 0x10_0000,
    ensures
        plain(ratio(n, d)),
        -(crumb() * d) <= ratio(n, d).value() * d - n * pow2(1074) <= crumb() * d,
{
    lemma_whole(d);
    lemma_fraction_is_near(n, d);
}

/// A whole number below zero is the one above zero with the other sign.
pub proof fn lemma_whole_below_zero(n: int)
    requires
        0 < n <= 0x20_0000_0000_0000,
    ensures
        whole(-n) == negated(whole(n)),
{
    lemma_whole(n);
}

/// A sum of two numbers of up to 2^11, but for a crumb.
pub proof fn lemma_sum_is_near(a: Double, b: Double)
    requires
        a.finite(),
        b.finite(),
        0 <= a.value() + b.value() < 0x800 * pow2(1074),
    ensures
        sum(a, b).finite(),
        !sum(a, b).negative() || a.value() + b.value() == 0,
        -crumb() <= sum(a, b).value() - (a.value() + b.value()) <= crumb(),
{
    lemma_one_in_crumbs();
    let v = a.value() + b.value();
    assert(scaled(0) == 0);
    assert(crumb() * 1 == crumb());
    if v != 0 {
        lemma_rounding_moves_a_crumb(v as nat, 1);
    }
}

/// A whole number of decibels times a factor, but for a crumb.
pub proof fn lemma_product_is_near(r: int, s: Double)
    requires
        0 <= r <= 1000,
        plain(s),
        scaled(s.magnitude()) <= 2 * pow2(1074),
    ensures
        plain(product(whole(r), s)),
        -crumb() <= product(whole(r), s).value() - r * s.value() <= crumb(),
{
    lemma_whole(r);
    lemma_one_in_crumbs();
    lemma_pow2_pos(1074);
    let unit = pow2(1074) as int;
    let g = crumb() as int;
    let v = scaled(s.magnitude()) as int;
    let num = scaled(whole(r).magnitude()) * scaled(s.magnitude());
    assert(num == (r * v) * unit) by (nonlinear_arith)
        requires
            num == (r * unit) * v,
    ;
    assert(r * v <= 2000 * unit) by (nonlinear_arith)
        requires
            0 <= r <= 1000,
            0 <= v <= 2 * unit,
    ;
    assert(num < 0x10_0000_0000_0000 * (crumb() * pow2(1074))) by (nonlinear_arith)
        requires
            num == (r * v) * unit,
            r * v <= 2000 * unit,
            unit == 0x100_0000_0000 * g,
            crumb() == g,
            pow2(1074) == unit,
            unit > 0,
            g > 0,
    ;
    lemma_rounding_moves_a_crumb(num, pow2(1074));
    let p = product(whole(r), s).value();
    assert(-g <= p - r * v <= g) by (nonlinear_arith)
        requires
            -(g * unit) <= p * unit - num <= g * unit,
            num == (r * v) * unit,
            unit > 0,
    ;
}

/// A fraction of at most one times a number of at most 64.
pub proof fn lemma_coefficient(n: int, m: int, x: Double)
    requires
        0 <= n <= m <= 0x10_0000,
        1 <= m,
        plain(x),
        scaled(x.magnitude()) <= 64 * pow2(1074),
    ensures
        plain(product(ratio(n, m), x)),
        -(65 * m * crumb()) <= m * product(ratio(n, m), x).value() - n * x.value() <= 65 * m
            * crumb(),
{
    let unit = pow2(1074) as int;
    let g = crumb() as int;
    lemma_one_in_crumbs();
    lemma_ratio_is_near(n, m);
    let r = ratio(n, m);
    let (rv, xv) = (scaled(r.magnitude()) as int, scaled(x.magnitude()) as int);
    assert(rv <= 2 * unit) by (nonlinear_arith)
        requires
            rv * m - n * unit <= g * m,
            0 <= n <= m,
            m >= 1,
            0 < g <= unit,
    ;
    let num = rv * xv;
    assert(0 <= num <= 128 * (unit * unit)) by (nonlinear_arith)
        requires
            num == rv * xv,
            0 <= rv <= 2 * unit,
            0 <= xv <= 64 * unit,
    ;
    assert(unit * unit == 0x100_0000_0000 * (g * unit)) by (nonlinear_arith)
        requires
            unit == 0x100_0000_0000 * g,
    ;
    assert(g * unit > 0) by (nonlinear_arith)
        requires
            g > 0,
            unit > 0,
    ;
    assert(crumb() * pow2(1074) == g * unit);
    lemma_rounding_moves_a_crumb(num as nat, pow2(1074));
    let p = product(r, x).value();
    assert(-(g * unit) <= p * unit - num <= g * unit);
    let e = rv * m - n * unit;
    assert(-(64 * (m * g * unit)) <= e * xv <= 64 * (m * g * unit)) by (nonlinear_arith)
        requires
            -(g * m) <= e <= g * m,
            0 <= xv <= 64 * unit,
            g > 0,
            m >= 1,
    ;
    assert(e * xv == m * num - n * xv * unit) by (nonlinear_arith)
        requires
            e == rv * m - n * unit,
            num == rv * xv,
    ;
    assert(-(m * g * unit) <= m * (p * unit - num) <= m * g * unit) by (nonlinear_arith)
        requires
            -(g * unit) <= p * unit - num <= g * unit,
            m >= 1,
    ;
    assert(m * (p * unit - num) == m * p * unit - m * num) by (nonlinear_arith);
    let w = m * p - n * xv;
    assert(w * unit == m * p * unit - n * xv * unit) by (nonlinear_arith)
        requires
            w == m * p - n * xv,
    ;
    let top = 65 * m * g;
    assert(top * unit == 65 * (m * g * unit)) by (nonlinear_arith)
        requires
            top == 65 * m * g,
    ;
    assert(-(top * unit) <= w * unit <= top * unit);
    assert(-top <= w <= top) by (nonlinear_arith)
        requires
            -(top * unit) <= w * unit <= top * unit,
            unit > 0,
    ;
}

/// A sum of two numbers of either sign, but for a crumb.
pub proof fn lemma_signed_sum_is_near(a: Double, b: Double)
    requires
        a.finite(),
        b.finite(),
        -(0x7FF * pow2(1074)) <= a.value() + b.value() <= 0x7FF * pow2(1074),
    ensures
        sum(a, b).finite(),
        -crumb() <= sum(a, b).value() - (a.value() + b.value()) <= crumb(),
{
    lemma_one_in_crumbs();
    let v = a.value() + b.value();
    assert(scaled(0) == 0);
    assert(crumb() * 1 == crumb());
    if v > 0 {
        lemma_rounding_moves_a_crumb(v as nat, 1);
    } else if v < 0 {
        lemma_rounding_moves_a_crumb((-v) as nat, 1);
    }
}

/// A number of either sign times a whole number, but for a crumb.
pub proof fn lemma_signed_product_is_near(s: Double, r: int)
    requires
        0 <= r <= 1000,
        s.finite(),
        scaled(s.magnitude()) <= 2 * pow2(1074),
    ensures
        product(s, whole(r)).finite(),
        -crumb() <= product(s, whole(r)).value() - r * s.value() <= crumb(),
{
    let a = Double { bits: s.magnitude() };
    lemma_whole(r);
    lemma_product_is_near(r, a);
    let (x, y) = (scaled(s.magnitude()), scaled(whole(r).magnitude()));
    assert(x * y == y * x) by (nonlinear_arith);
    let (p, q) = (product(s, whole(r)), product(whole(r), a));
    assert(p.magnitude() == q.magnitude());
    assert(scaled(0) == 0);
    if s.negative() {
        assert(p.value() == -q.value());
        assert(r * s.value() == -(r * a.value())) by (nonlinear_arith)
            requires
                s.value() == -a.value(),
        ;
    }
}

} // verus!
