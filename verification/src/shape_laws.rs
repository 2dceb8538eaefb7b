//! What the windows with a shape are shaped by.
use crate::arith::{difference, negated, product, quotient, sum, whole};
use crate::bounds::{
    lemma_double_of, lemma_nearest_at_most, lemma_whole, lemma_whole_difference,
    lemma_whole_part_between, plain,
};
use crate::config::ConfigView;
use crate::crumbs::{
    crumb, lemma_coefficient, lemma_fraction_is_near, lemma_one_in_crumbs, lemma_product_is_near,
    lemma_ratio_is_near, lemma_signed_product_is_near, lemma_signed_sum_is_near, lemma_sum_is_near,
    lemma_whole_below_zero,
};
use crate::double::{law_order_is_value_order, lemma_scaled_increases, scaled, Double};
use crate::rounding::lemma_exact_is_nearest;
use crate::taper::{dolph_attenuation, kaiser_attenuation};
use crate::taper_laws::lemma_plain_roots;
use crate::tick_laws::lemma_order;
use crate::window::{cubic, kaiser_index, kaiser_row, kaiser_shape, ratio};
use vstd::arithmetic::power2::{lemma2_to64, lemma_pow2_adds, lemma_pow2_pos, pow2};
use vstd::prelude::*;

verus! {

/// A part of one percent, of either sign.
proof fn lemma_adjustment(a: int)
    requires
        -10 <= a <= 10,
    ensures
        quotient(whole(a), whole(50)).finite(),
        -(50 * crumb()) <= 50 * quotient(whole(a), whole(50)).value() - a * pow2(1074) <= 50
            * crumb(),
{
    lemma_whole(50);
    if a >= 0 {
        lemma_ratio_is_near(a, 50);
    } else {
        lemma_ratio_is_near(-a, 50);
        lemma_whole(-a);
        lemma_whole_below_zero(-a);
        let (p, q) = (quotient(whole(-a), whole(50)), quotient(whole(a), whole(50)));
        assert(whole(a).magnitude() == whole(-a).magnitude());
        assert(p.magnitude() == q.magnitude());
        assert(a * pow2(1074) == -((-a) * pow2(1074))) by (nonlinear_arith);
    }
}

/// The attenuations that windows are shaped for. A Kaiser window is for one and a tenth of
/// the range of levels and gain together, a Dolph window for one and five thousandths of it
/// and six decibels more; a step of the adjustment changes the factor by two hundredths.
/// That is so but for less than a thousandth of a decibel.
pub proof fn law_attenuations_follow_the_range(c: ConfigView, a: int)
    requires
        0 <= c.db_range + c.gain <= 1000,
        -10 <= a <= 10,
        c.window_adjust == whole(a),
    ensures
        ({
            let r = c.db_range + c.gain;
            let k = kaiser_attenuation(c).value();
            let d = dolph_attenuation(c).value();
            &&& kaiser_attenuation(c).finite()
            &&& dolph_attenuation(c).finite()
            &&& -(pow2(1074) as int) <= 1000 * (50 * k - r * (55 + a) * pow2(1074)) <= pow2(1074)
            &&& -(pow2(1074) as int) <= 1000 * (200 * d - (r * (201 + 4 * a) + 1200) * pow2(1074))
                <= pow2(1074)
        }),
{
    let r = c.db_range + c.gain;
    let unit = pow2(1074) as int;
    let g = crumb() as int;
    lemma_one_in_crumbs();
    lemma_ratio_is_near(11, 10);
    lemma_ratio_is_near(1005, 1000);
    lemma_adjustment(a);
    let adjust = quotient(c.window_adjust, whole(50));
    let av = adjust.value();
    assert(-10 * unit <= a * unit <= 10 * unit) by (nonlinear_arith)
        requires
            -10 <= a <= 10,
            unit >= 0,
    ;
    let k0 = ratio(11, 10);
    let d0 = ratio(1005, 1000);
    lemma_sum_is_near(k0, adjust);
    lemma_sum_is_near(d0, adjust);
    let ks = sum(k0, adjust);
    let ds = sum(d0, adjust);
    assert(-(150 * g) <= 50 * ks.value() - (55 + a) * unit <= 150 * g) by {
        assert((55 + a) * unit == 55 * unit + a * unit) by (nonlinear_arith);
    }
    assert(-(600 * g) <= 200 * ds.value() - (201 + 4 * a) * unit <= 600 * g) by {
        assert((201 + 4 * a) * unit == 201 * unit + 4 * (a * unit)) by (nonlinear_arith);
    }
    lemma_product_is_near(r, ks);
    lemma_product_is_near(r, ds);
    let kp = product(whole(r), ks);
    let dp = product(whole(r), ds);
    let (ksv, dsv) = (ks.value(), ds.value());
    assert(-(150000 * g) <= 50 * (r * ksv) - r * (55 + a) * unit <= 150000 * g) by (nonlinear_arith)
        requires
            -(150 * g) <= 50 * ksv - (55 + a) * unit <= 150 * g,
            0 <= r <= 1000,
            g >= 0,
    ;
    assert(-(600000 * g) <= 200 * (r * dsv) - r * (201 + 4 * a) * unit <= 600000 * g)
        by (nonlinear_arith)
        requires
            -(600 * g) <= 200 * dsv - (201 + 4 * a) * unit <= 600 * g,
            0 <= r <= 1000,
            g >= 0,
    ;
    lemma_whole(6);
    assert(r * (201 + 4 * a) * unit <= 241000 * unit) by (nonlinear_arith)
        requires
            0 <= r <= 1000,
            -10 <= a <= 10,
            unit >= 0,
    ;
    lemma_sum_is_near(dp, whole(6));
    assert((r * (201 + 4 * a) + 1200) * unit == r * (201 + 4 * a) * unit + 1200 * unit)
        by (nonlinear_arith);
}

/// What a whole number exceeds a fraction by.
proof fn lemma_excess(a: int, n: int, d: int)
    requires
        0 <= a <= 60,
        0 <= n < a * d,
        1 <= d <= 100,
    ensures
        plain(difference(whole(a), ratio(n, d))),
        -(2 * d * crumb()) <= d * difference(whole(a), ratio(n, d)).value() - (a * d - n) * pow2(
            1074,
        ) <= 2 * d * crumb(),
{
    let unit = pow2(1074) as int;
    let g = crumb() as int;
    lemma_one_in_crumbs();
    assert(n <= 2000 * d) by (nonlinear_arith)
        requires
            n <= a * d,
            a <= 60,
            d >= 1,
    ;
    lemma_ratio_is_near(n, d);
    lemma_whole(a);
    let r = ratio(n, d);
    let rv = r.value();
    assert(negated(r).value() == -rv);
    assert(negated(r).finite());
    let v = a * unit - rv;
    assert(d * v - (a * d - n) * unit == -(rv * d - n * unit)) by (nonlinear_arith)
        requires
            v == a * unit - rv,
    ;
    assert(0 < v <= 60 * unit) by (nonlinear_arith)
        requires
            v == a * unit - rv,
            -(g * d) <= rv * d - n * unit <= g * d,
            rv >= 0,
            a * d >= n + 1,
            a <= 60,
            1 <= d <= 100,
            unit == 0x100_0000_0000 * g,
            g > 0,
    ;
    lemma_sum_is_near(whole(a), negated(r));
    let s = difference(whole(a), r).value();
    assert(-(2 * d * g) <= d * s - (a * d - n) * unit <= 2 * d * g) by (nonlinear_arith)
        requires
            -g <= s - v <= g,
            d * v - (a * d - n) * unit == -(rv * d - n * unit),
            -(g * d) <= rv * d - n * unit <= g * d,
            d >= 1,
    ;
}

/// Which of the formulas is for an attenuation of less than 60 dB.
proof fn lemma_shape(a: int, power: Double, octaves: Double)
    requires
        0 <= a <= 59,
    ensures
        a <= 20 ==> kaiser_shape(whole(a), octaves, power) == whole(0),
        21 <= a <= 50 ==> kaiser_shape(whole(a), octaves, power) == sum(
            product(ratio(58417, 100000), power),
            product(ratio(7886, 100000), difference(whole(a), ratio(2096, 100))),
        ),
        51 <= a ==> kaiser_shape(whole(a), octaves, power) == product(
            ratio(1102, 10000),
            difference(whole(a), ratio(87, 10)),
        ),
{
    let unit = pow2(1074) as int;
    lemma_one_in_crumbs();
    lemma_order(60, a);
    lemma_order(50, a);
    lemma_ratio_is_near(2096, 100);
    lemma_whole(a);
    law_order_is_value_order(ratio(2096, 100), whole(a));
    assert(a <= 20 ==> a * unit <= 20 * unit) by (nonlinear_arith)
        requires
            unit > 0,
    ;
    assert(a >= 21 ==> a * unit >= 21 * unit) by (nonlinear_arith)
        requires
            unit > 0,
    ;
}

/// 0.1102 times what 8.7 is exceeded by.
proof fn lemma_straight_shape(a: int)
    requires
        51 <= a <= 59,
    ensures
        ({
            let v = product(ratio(1102, 10000), difference(whole(a), ratio(87, 10)));
            &&& v.finite()
            &&& -(25_600_000 * crumb()) <= 100_000 * v.value() - 1102 * (10 * a - 87) * pow2(
                1074,
            ) <= 25_600_000 * crumb()
        }),
{
    let unit = pow2(1074) as int;
    lemma_one_in_crumbs();
    lemma_excess(a, 87, 10);
    let d = difference(whole(a), ratio(87, 10));
    let w = (a * 10 - 87) * unit;
    assert(w <= 513 * unit) by (nonlinear_arith)
        requires
            w == (a * 10 - 87) * unit,
            a <= 60,
            unit > 0,
    ;
    lemma_coefficient(1102, 10000, d);
    let g = crumb() as int;
    let v = product(ratio(1102, 10000), d).value();
    assert(-(20 * g) <= 10 * d.value() - w <= 20 * g);
    assert(-(650_000 * g) <= 10_000 * v - 1102 * d.value() <= 650_000 * g);
    lemma_straight_bound(v, d.value(), w, g);
    assert(1102 * (10 * a - 87) * pow2(1074) == 1102 * w) by (nonlinear_arith)
        requires
            w == (a * 10 - 87) * unit,
            pow2(1074) == unit,
    ;
}

proof fn lemma_straight_bound(v: int, d: int, w: int, g: int)
    requires
        g >= 0,
        -(20 * g) <= 10 * d - w <= 20 * g,
        -(650_000 * g) <= 10_000 * v - 1102 * d <= 650_000 * g,
    ensures
        -(25_600_000 * g) <= 100_000 * v - 1102 * w <= 25_600_000 * g,
{
}

/// 0.58417 times a power, and 0.07886 times what 20.96 is exceeded by.
proof fn lemma_bent_shape(a: int, power: Double)
    requires
        21 <= a <= 50,
        plain(power),
        scaled(power.magnitude()) <= 8 * pow2(1074),
    ensures
        ({
            let v = sum(
                product(ratio(58417, 100000), power),
                product(ratio(7886, 100000), difference(whole(a), ratio(2096, 100))),
            );
            &&& v.finite()
            &&& -(2_560_000_000 * crumb()) <= 10_000_000 * v.value() - (5_841_700
                * power.value() + 7886 * (100 * a - 2096) * pow2(1074)) <= 2_560_000_000 * crumb()
        }),
{
    let unit = pow2(1074) as int;
    lemma_one_in_crumbs();
    lemma_excess(a, 2096, 100);
    let d = difference(whole(a), ratio(2096, 100));
    let w = (a * 100 - 2096) * unit;
    assert(w <= 2904 * unit) by (nonlinear_arith)
        requires
            w == (a * 100 - 2096) * unit,
            a <= 50,
            unit > 0,
    ;
    lemma_coefficient(58417, 100000, power);
    lemma_coefficient(7886, 100000, d);
    let p = product(ratio(58417, 100000), power);
    let q = product(ratio(7886, 100000), d);
    let g = crumb() as int;
    assert(-(200 * g) <= 100 * d.value() - w <= 200 * g);
    assert(-(6_500_000 * g) <= 100_000 * p.value() - 58417 * power.value() <= 6_500_000 * g);
    assert(-(6_500_000 * g) <= 100_000 * q.value() - 7886 * d.value() <= 6_500_000 * g);
    lemma_sum_is_near(p, q);
    lemma_bent_bound(sum(p, q).value(), p.value(), q.value(), d.value(), power.value(), w, g);
    assert(7886 * (100 * a - 2096) * pow2(1074) == 7886 * w) by (nonlinear_arith)
        requires
            w == (a * 100 - 2096) * unit,
            pow2(1074) == unit,
    ;
}

proof fn lemma_bent_bound(v: int, p: int, q: int, d: int, x: int, w: int, g: int)
    requires
        g >= 0,
        -(200 * g) <= 100 * d - w <= 200 * g,
        -(6_500_000 * g) <= 100_000 * p - 58417 * x <= 6_500_000 * g,
        -(6_500_000 * g) <= 100_000 * q - 7886 * d <= 6_500_000 * g,
        -g <= v - (p + q) <= g,
    ensures
        -(2_560_000_000 * g) <= 10_000_000 * v - (5_841_700 * x + 7886 * w) <= 2_560_000_000 * g,
{
}

/// The shape of a Kaiser window by its attenuation in whole decibels. Up to 20 it is nothing.
/// From 21 to 50 it is 0.58417 times the power that is handed in and 0.07886 times what 20.96
/// is exceeded by, and from 51 to 59 it is 0.1102 times what 8.7 is exceeded by, but for 2^-32.
pub proof fn law_kaiser_shapes_go_by_attenuation(a: int, power: Double, octaves: Double)
    requires
        0 <= a <= 59,
        plain(power),
        scaled(power.magnitude()) <= 8 * pow2(1074),
    ensures
        a <= 20 ==> kaiser_shape(whole(a), octaves, power) == whole(0),
        21 <= a <= 50 ==> {
            let v = kaiser_shape(whole(a), octaves, power);
            &&& v.finite()
            &&& -(2_560_000_000 * crumb()) <= 10_000_000 * v.value() - (5_841_700
                * power.value() + 7886 * (100 * a - 2096) * pow2(1074)) <= 2_560_000_000 * crumb()
        },
        51 <= a <= 59 ==> {
            let v = kaiser_shape(whole(a), octaves, power);
            &&& v.finite()
            &&& -(25_600_000 * crumb()) <= 100_000 * v.value() - 1102 * (10 * a - 87) * pow2(
                1074,
            ) <= 25_600_000 * crumb()
        },
{
    lemma_shape(a, power, octaves);
    if 51 <= a {
        lemma_straight_shape(a);
    } else if 21 <= a {
        lemma_bent_shape(a, power);
    }
}

/// The shape of a Kaiser window for at least 60 dB is that of its octave, where the octaves
/// are a whole number; the first or the last of the ten where that lies beyond them.
pub proof fn law_kaiser_shapes_go_by_octave(a: int, k: int, power: Double)
    requires
        60 <= a <= 1000,
        0 <= k <= 1000,
        kaiser_shape(whole(a), whole(k), power).finite(),
        kaiser_shape(whole(a), whole(k), power).magnitude() != 0,
    ensures
        kaiser_shape(whole(a), whole(k), power) == cubic(
            kaiser_row(
                if k > 9 {
                    9
                } else {
                    k
                },
            ),
            whole(a),
        ),
{
    lemma_order(60, a);
    lemma_whole(k);
    lemma_one_in_crumbs();
    let unit = pow2(1074) as int;
    assert((k + 1) * unit == k * unit + unit) by (nonlinear_arith);
    lemma_whole_part_between(whole(k), k, k as nat);
    lemma_whole_difference(k, k);
    lemma_plain_roots();
    let b0 = cubic(kaiser_row(kaiser_index(k)), whole(a));
    let b1 = cubic(kaiser_row(kaiser_index(k + 1)), whole(a));
    lemma_nothing_added(b0, difference(b1, b0));
}

/// A number and nothing of another is the number, where that makes a number.
proof fn lemma_nothing_added(a: Double, x: Double)
    requires
        sum(a, product(x, whole(0))).finite(),
        sum(a, product(x, whole(0))).magnitude() != 0,
    ensures
        sum(a, product(x, whole(0))) == a,
{
    lemma_plain_roots();
    assert(scaled(0) == 0);
    let p = product(x, whole(0));
    lemma_pow2_pos(1074);
    if x.finite() {
        assert(scaled(x.magnitude()) * 0 == 0);
        lemma_nearest_at_most(0, pow2(1074), 0);
        assert(p.magnitude() == 0);
    }
    assert(p.magnitude() == 0);
    if a.finite() {
        let s = scaled(a.magnitude());
        assert(s * 1 == s);
        if a.magnitude() > 0 {
            lemma_scaled_increases(0, a.magnitude());
            lemma_exact_is_nearest(a.magnitude(), s, 1);
        }
    }
}

/// Whether a double is a number of parts of 10^16, but for a few crumbs.
spec fn is_parts(c: Double, n: int) -> bool {
    &&& c.finite()
    &&& -(30_000_000_000_000_000 * crumb()) <= 10_000_000_000_000_000 * c.value() - n * pow2(1074)
        <= 30_000_000_000_000_000 * crumb()
}

/// Ten to the sixteenth is a double.
proof fn lemma_large_divisor()
    ensures
        plain(whole(10_000_000_000_000_000)),
        scaled(whole(10_000_000_000_000_000).magnitude()) == 10_000_000_000_000_000 * pow2(1074),
{
    let n = 10_000_000_000_000_000nat;
    lemma_pow2_adds(16, 1074);
    lemma2_to64();
    let mag = lemma_double_of(152_587_890_625, 1090);
    assert(pow2(16) == 65536);
    assert(152_587_890_625 * (65536 * pow2(1074)) == n * pow2(1074));
    lemma_exact_is_nearest(mag, n * pow2(1074), 1);
}

/// A fraction in parts of 10^16.
proof fn lemma_parts(n: int, d: int, f: int)
    requires
        -2 * d <= n <= 2 * d,
        1 <= f,
        1 <= d,
        d * f == 10_000_000_000_000_000,
        -0x20_0000_0000_0000 <= n <= 0x20_0000_0000_0000,
    ensures
        is_parts(ratio(n, d), n * f),
        -(3 * pow2(1074)) <= ratio(n, d).value() <= 3 * pow2(1074),
        -(10_000_000_000_000_000 * crumb()) <= 10_000_000_000_000_000 * ratio(n, d).value() - n * f
            * pow2(1074) <= 10_000_000_000_000_000 * crumb(),
{
    let unit = pow2(1074) as int;
    let g = crumb() as int;
    lemma_one_in_crumbs();
    assert(d <= 10_000_000_000_000_000) by (nonlinear_arith)
        requires
            d * f == 10_000_000_000_000_000,
            f >= 1,
            d >= 1,
    ;
    if d <= 0x20_0000_0000_0000 {
        lemma_whole(d);
    } else {
        assert(f == 1) by (nonlinear_arith)
            requires
                d * f == 10_000_000_000_000_000,
                d > 0x20_0000_0000_0000,
                f >= 1,
        ;
        assert(d == 10_000_000_000_000_000);
        lemma_large_divisor();
    }
    let m = if n < 0 {
        -n
    } else {
        n
    };
    lemma_fraction_is_near(m, d);
    lemma_whole(m);
    let (p, q) = (ratio(m, d), ratio(n, d));
    if n < 0 {
        lemma_whole_below_zero(m);
        assert(whole(n).magnitude() == whole(m).magnitude());
        assert(p.magnitude() == q.magnitude());
        assert(q.value() == -p.value());
    }
    let (x, y) = (p.value(), q.value());
    assert(-(g * d) <= y * d - n * unit <= g * d) by {
        assert((-x) * d == -(x * d)) by (nonlinear_arith);
        assert((-m) * unit == -(m * unit)) by (nonlinear_arith);
    }
    assert(x <= 3 * unit) by (nonlinear_arith)
        requires
            x * d - m * unit <= g * d,
            m <= 2 * d,
            d >= 1,
            0 < g <= unit,
    ;
    let e = y * d - n * unit;
    assert(-(g * d * f) <= e * f <= g * d * f) by (nonlinear_arith)
        requires
            -(g * d) <= e <= g * d,
            f >= 1,
    ;
    assert(e * f == y * (d * f) - n * f * unit) by (nonlinear_arith)
        requires
            e == y * d - n * unit,
    ;
    assert(g * d * f == g * (d * f)) by (nonlinear_arith);
    assert(y * (d * f) == y * 10_000_000_000_000_000);
    assert(g * (d * f) == g * 10_000_000_000_000_000);
    assert(n * f * unit == (n * f) * unit);
}

/// A sum of two fractions in parts of 10^16.
proof fn lemma_parts_of_sum(n: int, d: int, f: int, m: int, e: int, h: int)
    requires
        -2 * d <= n <= d,
        0 <= m <= e,
        1 <= f,
        1 <= h,
        1 <= d,
        1 <= e,
        d * f == 10_000_000_000_000_000,
        e * h == 10_000_000_000_000_000,
        -0x20_0000_0000_0000 <= n,
        n <= 0x20_0000_0000_0000,
        m <= 0x20_0000_0000_0000,
    ensures
        is_parts(sum(ratio(n, d), ratio(m, e)), n * f + m * h),
{
    let unit = pow2(1074) as int;
    lemma_one_in_crumbs();
    lemma_parts(n, d, f);
    lemma_parts(m, e, h);
    let (a, b) = (ratio(n, d), ratio(m, e));
    lemma_signed_sum_is_near(a, b);
    assert((n * f + m * h) * unit == n * f * unit + m * h * unit) by (nonlinear_arith);
}

/// The polynomial of an octave, in parts of 10^16.
#[verifier::opaque]
spec fn parts_of_row(k: int) -> (int, int, int, int) {
    if k == 0 {
        (-6_784_957, 102_856_000_000, 1_087_556_000_000_000, -8_978_365_000_000_000)
    } else if k == 1 {
        (-6_897_885, 102_743_300_000, 1_087_600_000_000_000, -8_974_658_000_000_000)
    } else if k == 2 {
        (-10_006_830, 103_009_200_000, 1_087_677_000_000_000, -8_977_898_000_000_000)
    } else if k == 3 {
        (-3_654_474, 104_063_100_000, 1_087_085_000_000_000, -8_917_766_000_000_000)
    } else if k == 4 {
        (81_069_880, 69_830_910_000, 1_091_387_000_000_000, -9_022_048_000_000_000)
    } else if k == 5 {
        (95_195_710, 72_726_780_000, 1_090_068_000_000_000, -8_890_768_000_000_000)
    } else if k == 6 {
        (-56_268_210, 134_218_600_000, 1_083_999_000_000_000, -8_565_452_000_000_000)
    } else if k == 7 {
        (-996_594_600, 507_354_800_000, 1_040_967_000_000_000, -6_822_778_000_000_000)
    } else if k == 8 {
        (1_604_808_000, -585_646_200_000, 1_185_998_000_000_000, -12_482_400_000_000_000)
    } else {
        (-1_511_964_000, 636_303_400_000, 1_064_627_000_000_000, -8_076_665_000_000_000)
    }
}

proof fn lemma_row(k: int)
    requires
        0 <= k <= 9,
    ensures
        ({
            let r = kaiser_row(k);
            let n = parts_of_row(k);
            is_parts(r.0, n.0) && is_parts(r.1, n.1) && is_parts(r.2, n.2) && is_parts(r.3, n.3)
        }),
{
    reveal(parts_of_row);
    if k == 0 {
        lemma_parts(-6_784_957, 10_000_000_000_000_000, 1);
        lemma_parts(102_856, 10_000_000_000, 1_000_000);
        lemma_parts(1_087_556, 10_000_000, 1_000_000_000);
        lemma_parts_of_sum(-8_988_365, 10_000_000, 1_000_000_000, 1, 1_000, 10_000_000_000_000);
    } else if k == 1 {
        lemma_parts(-6_897_885, 10_000_000_000_000_000, 1);
        lemma_parts(1_027_433, 100_000_000_000, 100_000);
        lemma_parts(10_876, 100_000, 100_000_000_000);
        lemma_parts_of_sum(-8_994_658, 10_000_000, 1_000_000_000, 2, 1_000, 10_000_000_000_000);
    } else if k == 2 {
        lemma_parts(-1_000_683, 1_000_000_000_000_000, 10);
        lemma_parts(1_030_092, 100_000_000_000, 100_000);
        lemma_parts(1_087_677, 10_000_000, 1_000_000_000);
        lemma_parts_of_sum(-9_007_898, 10_000_000, 1_000_000_000, 3, 1_000, 10_000_000_000_000);
    } else if k == 3 {
        lemma_parts(-3_654_474, 10_000_000_000_000_000, 1);
        lemma_parts(1_040_631, 100_000_000_000, 100_000);
        lemma_parts(1_087_085, 10_000_000, 1_000_000_000);
        lemma_parts_of_sum(-8_977_766, 10_000_000, 1_000_000_000, 6, 1_000, 10_000_000_000_000);
    } else if k == 4 {
        lemma_parts(8_106_988, 1_000_000_000_000_000, 10);
        lemma_parts(6_983_091, 1_000_000_000_000, 10_000);
        lemma_parts(1_091_387, 10_000_000, 1_000_000_000);
        lemma_parts_of_sum(-9_172_048, 10_000_000, 1_000_000_000, 15, 1_000, 10_000_000_000_000);
    } else if k == 5 {
        lemma_parts(9_519_571, 1_000_000_000_000_000, 10);
        lemma_parts(7_272_678, 1_000_000_000_000, 10_000);
        lemma_parts(1_090_068, 10_000_000, 1_000_000_000);
        lemma_parts_of_sum(-9_140_768, 10_000_000, 1_000_000_000, 25, 1_000, 10_000_000_000_000);
    } else if k == 6 {
        lemma_parts(-5_626_821, 1_000_000_000_000_000, 10);
        lemma_parts(1_342_186, 100_000_000_000, 100_000);
        lemma_parts(1_083_999, 10_000_000, 1_000_000_000);
        lemma_parts_of_sum(-9_065_452, 10_000_000, 1_000_000_000, 5, 100, 100_000_000_000_000);
    } else if k == 7 {
        lemma_parts(-9_965_946, 100_000_000_000_000, 100);
        lemma_parts(5_073_548, 100_000_000_000, 100_000);
        lemma_parts(1_040_967, 10_000_000, 1_000_000_000);
        lemma_parts_of_sum(-7_672_778, 10_000_000, 1_000_000_000, 85, 1_000, 10_000_000_000_000);
    } else if k == 8 {
        lemma_parts(1_604_808, 10_000_000_000_000, 1_000);
        lemma_parts(-5_856_462, 100_000_000_000, 100_000);
        lemma_parts(1_185_998, 10_000_000, 1_000_000_000);
        lemma_parts_of_sum(-134_824, 100_000, 100_000_000_000, 1, 10, 1_000_000_000_000_000);
    } else {
        lemma_parts(-1_511_964, 10_000_000_000_000, 1_000);
        lemma_parts(6_363_034, 100_000_000_000, 100_000);
        lemma_parts(1_064_627, 10_000_000, 1_000_000_000);
        lemma_parts_of_sum(-9_876_665, 10_000_000, 1_000_000_000, 18, 100, 100_000_000_000_000);
    }
}

/// What is off by so much is off by no more than 200 times as much, `a` times.
proof fn lemma_times_200(e: int, m: int, a: int)
    requires
        60 <= a <= 200,
        -m <= e <= m,
    ensures
        -(200 * m) <= a * e <= 200 * m,
        a * e == e * a,
{
    assert(-(200 * m) <= a * e <= 200 * m) by (nonlinear_arith)
        requires
            60 <= a <= 200,
            -m <= e <= m,
    ;
    assert(a * e == e * a) by (nonlinear_arith);
}

/// The numbers on the way through a polynomial.
struct Way {
    t1: int,
    t2: int,
    t3: int,
    t4: int,
    t5: int,
    t6: int,
}

/// Whether each number on the way through a polynomial is off by no more than `g`.
spec fn leads(w: Way, a: int, g: int, c0: int, c1: int, c2: int, c3: int) -> bool {
    &&& -g <= w.t1 - a * c0 <= g
    &&& -g <= w.t2 - (w.t1 + c1) <= g
    &&& -g <= w.t3 - a * w.t2 <= g
    &&& -g <= w.t4 - (w.t3 + c2) <= g
    &&& -g <= w.t5 - a * w.t4 <= g
    &&& -g <= w.t6 - (w.t5 + c3) <= g
}

/// How far off the end of the way is.
proof fn lemma_way(w: Way, a: int, g: int, c0: int, c1: int, c2: int, c3: int)
    requires
        60 <= a <= 200,
        g >= 0,
        leads(w, a, g, c0, c1, c2, c3),
    ensures
        -(80402 * g) <= w.t6 - (((c0 * a + c1) * a + c2) * a + c3) <= 80402 * g,
{
    let q1 = c0 * a + c1;
    let q2 = q1 * a + c2;
    assert(a * c0 == c0 * a) by (nonlinear_arith);
    let e2 = w.t2 - q1;
    lemma_times_200(e2, 2 * g, a);
    assert(a * w.t2 == q1 * a + e2 * a) by (nonlinear_arith)
        requires
            e2 == w.t2 - q1,
    ;
    let e4 = w.t4 - q2;
    assert(-(402 * g) <= e4 <= 402 * g);
    lemma_times_200(e4, 402 * g, a);
    assert(a * w.t4 == q2 * a + e4 * a) by (nonlinear_arith)
        requires
            e4 == w.t4 - q2,
    ;
}

/// How far off a polynomial is whose coefficients are off.
proof fn lemma_off(a: int, m: int, d0: int, d1: int, d2: int, d3: int)
    requires
        60 <= a <= 200,
        m >= 0,
        -m <= d0 <= m,
        -m <= d1 <= m,
        -m <= d2 <= m,
        -m <= d3 <= m,
    ensures
        -(8_040_201 * m) <= ((d0 * a + d1) * a + d2) * a + d3 <= 8_040_201 * m,
{
    lemma_times_200(d0, m, a);
    let q1 = d0 * a + d1;
    lemma_times_200(q1, 201 * m, a);
    let q2 = q1 * a + d2;
    lemma_times_200(q2, 40_201 * m, a);
}

/// One step of two polynomials and of their difference.
proof fn lemma_polynomial_step(f: int, u: int, p: int, q: int, a: int, c: int, n: int)
    ensures
        (f * p - q * u) * a + (f * c - n * u) == f * (p * a + c) - (q * a + n) * u,
{
    assert((f * p - q * u) * a == f * (p * a) - (q * a) * u) by (nonlinear_arith);
    assert(f * (p * a + c) == f * (p * a) + f * c) by (nonlinear_arith);
    assert((q * a + n) * u == (q * a) * u + n * u) by (nonlinear_arith);
}

/// A polynomial of differences is the difference of polynomials.
proof fn lemma_difference_of_polynomials(
    a: int,
    f: int,
    unit: int,
    c: (int, int, int, int),
    n: (int, int, int, int),
)
    ensures
        f * (((c.0 * a + c.1) * a + c.2) * a + c.3) - (((n.0 * a + n.1) * a + n.2) * a + n.3) * unit
            == (((f * c.0 - n.0 * unit) * a + (f * c.1 - n.1 * unit)) * a + (f * c.2 - n.2 * unit))
            * a + (f * c.3 - n.3 * unit),
{
    let (p1, q1) = (c.0 * a + c.1, n.0 * a + n.1);
    let (p2, q2) = (p1 * a + c.2, q1 * a + n.2);
    lemma_polynomial_step(f, unit, c.0, n.0, a, c.1, n.1);
    lemma_polynomial_step(f, unit, p1, q1, a, c.2, n.2);
    lemma_polynomial_step(f, unit, p2, q2, a, c.3, n.3);
}

/// The coefficients of an octave are small.
proof fn lemma_small_coefficients(k: int)
    requires
        0 <= k <= 9,
    ensures
        ({
            let r = kaiser_row(k);
            let unit = pow2(1074) as int;
            &&& r.0.finite() && -unit <= 100_000 * r.0.value() <= unit
            &&& r.1.finite() && -unit <= 1000 * r.1.value() <= unit
            &&& r.2.finite() && -unit <= r.2.value() <= unit
            &&& r.3.finite() && -(2 * unit) <= r.3.value() <= 2 * unit
        }),
{
    reveal(parts_of_row);
    lemma_row(k);
    lemma_one_in_crumbs();
    let unit = pow2(1074) as int;
    let n = parts_of_row(k);
    assert(-(10_000_000_000 * unit) <= n.0 * unit <= 10_000_000_000 * unit) by (nonlinear_arith)
        requires
            -10_000_000_000 <= n.0 <= 10_000_000_000,
            unit >= 0,
    ;
    assert(-(1_000_000_000_000 * unit) <= n.1 * unit <= 1_000_000_000_000 * unit)
        by (nonlinear_arith)
        requires
            -1_000_000_000_000 <= n.1 <= 1_000_000_000_000,
            unit >= 0,
    ;
    assert(-(2_000_000_000_000_000 * unit) <= n.2 * unit <= 2_000_000_000_000_000 * unit)
        by (nonlinear_arith)
        requires
            -2_000_000_000_000_000 <= n.2 <= 2_000_000_000_000_000,
            unit >= 0,
    ;
    assert(-(15_000_000_000_000_000 * unit) <= n.3 * unit <= 15_000_000_000_000_000 * unit)
        by (nonlinear_arith)
        requires
            -15_000_000_000_000_000 <= n.3 <= 15_000_000_000_000_000,
            unit >= 0,
    ;
}

/// The way through a polynomial of an octave.
proof fn lemma_cubic_way(k: int, a: int) -> (w: Way)
    requires
        0 <= k <= 9,
        60 <= a <= 200,
    ensures
        ({
            let r = kaiser_row(k);
            let v = cubic(r, whole(a));
            &&& v.finite()
            &&& w.t6 == v.value()
            &&& leads(
                w,
                a,
                crumb() as int,
                r.0.value(),
                r.1.value(),
                r.2.value(),
                r.3.value(),
            )
        }),
{
    let unit = pow2(1074) as int;
    let g = crumb() as int;
    lemma_one_in_crumbs();
    lemma_small_coefficients(k);
    let r = kaiser_row(k);
    let x = whole(a);
    assert(scaled(0) == 0);
    let c0 = r.0.value();
    lemma_signed_product_is_near(r.0, a);
    let s1 = product(r.0, x);
    assert(-unit <= 500 * (a * c0) <= unit) by (nonlinear_arith)
        requires
            -unit <= 100_000 * c0 <= unit,
            60 <= a <= 200,
    ;
    lemma_signed_sum_is_near(s1, r.1);
    let s2 = sum(s1, r.1);
    let t2 = s2.value();
    assert(-unit <= 250 * t2 <= unit);
    lemma_signed_product_is_near(s2, a);
    let s3 = product(s2, x);
    assert(-(4 * unit) <= 5 * (a * t2) <= 4 * unit) by (nonlinear_arith)
        requires
            -unit <= 250 * t2 <= unit,
            60 <= a <= 200,
    ;
    lemma_signed_sum_is_near(s3, r.2);
    let s4 = sum(s3, r.2);
    let t4 = s4.value();
    assert(-(2 * unit) <= t4 <= 2 * unit);
    lemma_signed_product_is_near(s4, a);
    let s5 = product(s4, x);
    lemma_times_200(t4, 2 * unit, a);
    lemma_signed_sum_is_near(s5, r.3);
    let s6 = sum(s5, r.3);
    Way {
        t1: s1.value(),
        t2,
        t3: s3.value(),
        t4,
        t5: s5.value(),
        t6: s6.value(),
    }
}

/// A polynomial of an octave in parts of 10^16, but for 25 million crumbs.
proof fn lemma_cubic_is_near(k: int, a: int)
    requires
        0 <= k <= 9,
        60 <= a <= 200,
    ensures
        ({
            let n = parts_of_row(k);
            let v = cubic(kaiser_row(k), whole(a));
            &&& v.finite()
            &&& -(250_000_000_000_000_000_000_000 * crumb()) <= 10_000_000_000_000_000 * v.value()
                - (((n.0 * a + n.1) * a + n.2) * a + n.3) * pow2(1074)
                <= 250_000_000_000_000_000_000_000 * crumb()
        }),
{
    let unit = pow2(1074) as int;
    let g = crumb() as int;
    lemma_one_in_crumbs();
    let f: int = 10_000_000_000_000_000;
    let r = kaiser_row(k);
    let n = parts_of_row(k);
    let c = (r.0.value(), r.1.value(), r.2.value(), r.3.value());
    lemma_row(k);
    let w = lemma_cubic_way(k, a);
    lemma_way(w, a, g, c.0, c.1, c.2, c.3);
    lemma_difference_of_polynomials(a, f, unit, c, n);
    lemma_off(
        a,
        30_000_000_000_000_000 * g,
        f * c.0 - n.0 * unit,
        f * c.1 - n.1 * unit,
        f * c.2 - n.2 * unit,
        f * c.3 - n.3 * unit,
    );
}

/// The least that a number of at least `l` comes to, 60 to 200 times.
spec fn least(l: int) -> int {
    if l >= 0 {
        60 * l
    } else {
        200 * l
    }
}

/// The most that a number of at most `h` comes to, 60 to 200 times.
spec fn most(h: int) -> int {
    if h >= 0 {
        200 * h
    } else {
        60 * h
    }
}

proof fn lemma_between(x: int, l: int, h: int, a: int)
    requires
        60 <= a <= 200,
        l <= x <= h,
    ensures
        least(l) <= x * a <= most(h),
{
    assert(least(l) <= x * a) by (nonlinear_arith)
        requires
            60 <= a <= 200,
            l <= x,
            least(l) == if l >= 0 {
                60 * l
            } else {
                200 * l
            },
    ;
    assert(x * a <= most(h)) by (nonlinear_arith)
        requires
            60 <= a <= 200,
            x <= h,
            most(h) == if h >= 0 {
                200 * h
            } else {
                60 * h
            },
    ;
}

/// Between which numbers a polynomial stays.
proof fn lemma_polynomial_between(n0: int, n1: int, n2: int, n3: int, a: int)
    requires
        60 <= a <= 200,
    ensures
        least(least(least(n0) + n1) + n2) + n3 <= ((n0 * a + n1) * a + n2) * a + n3 <= most(
            most(most(n0) + n1) + n2,
        ) + n3,
{
    lemma_between(n0, n0, n0, a);
    let q1 = n0 * a + n1;
    lemma_between(q1, least(n0) + n1, most(n0) + n1, a);
    let q2 = q1 * a + n2;
    lemma_between(q2, least(least(n0) + n1) + n2, most(most(n0) + n1) + n2, a);
}

/// How much the polynomial of an octave and that of the next differ by at most, in parts of
/// 10^4.
pub open spec fn octave_change(k: int) -> int {
    if k <= 1 {
        20
    } else if k == 2 {
        60
    } else if k == 3 {
        600
    } else if k == 4 {
        130
    } else if k == 5 {
        1300
    } else if k == 6 {
        6000
    } else {
        22000
    }
}

proof fn lemma_octaves_differ_little(k: int, a: int)
    requires
        0 <= k < 9,
        60 <= a <= 200,
    ensures
        ({
            let (n, m) = (parts_of_row(k), parts_of_row(k + 1));
            let d = (((m.0 - n.0) * a + (m.1 - n.1)) * a + (m.2 - n.2)) * a + (m.3 - n.3);
            -(1_000_000_000_000 * octave_change(k) - 1_000_000_000_000) <= d <= 1_000_000_000_000
                * octave_change(k) - 1_000_000_000_000
        }),
{
    reveal(parts_of_row);
    let (n, m) = (parts_of_row(k), parts_of_row(k + 1));
    lemma_polynomial_between(m.0 - n.0, m.1 - n.1, m.2 - n.2, m.3 - n.3, a);
}

/// The shapes that different octaves give for the same attenuation, from 60 to 200 dB, differ
/// little: the first three by less than a five hundredth from one to the next, and none by
/// more than 2.2. That of the first is within a fifth of the straight line that is used up to
/// 60 dB.
pub proof fn law_octaves_differ_little(k: int, a: int)
    requires
        0 <= k < 9,
        60 <= a <= 200,
    ensures
        ({
            let v = cubic(kaiser_row(k), whole(a));
            let w = cubic(kaiser_row(k + 1), whole(a));
            &&& v.finite() && w.finite()
            &&& -(octave_change(k) * pow2(1074)) <= 10_000 * (w.value() - v.value())
                <= octave_change(k) * pow2(1074)
            &&& k == 0 ==> -(20_000 * pow2(1074)) <= 100_000 * v.value() - 1102 * (10 * a - 87)
                * pow2(1074) <= 20_000 * pow2(1074)
        }),
{
    let unit = pow2(1074) as int;
    let g = crumb() as int;
    lemma_one_in_crumbs();
    lemma_cubic_is_near(k, a);
    lemma_cubic_is_near(k + 1, a);
    lemma_octaves_differ_little(k, a);
    let (n, m) = (parts_of_row(k), parts_of_row(k + 1));
    let (v, w) = (
        cubic(kaiser_row(k), whole(a)).value(),
        cubic(kaiser_row(k + 1), whole(a)).value(),
    );
    let p = ((n.0 * a + n.1) * a + n.2) * a + n.3;
    let q = ((m.0 * a + m.1) * a + m.2) * a + m.3;
    lemma_difference_of_polynomials(a, 1, 1, m, n);
    lemma_values_differ(v, w, p, q, unit, g, octave_change(k));
    if k == 0 {
        lemma_straight_line(a, p, unit);
        assert(110_200_000_000_000 * (10 * a - 87) * unit == 100_000_000_000 * (1102 * (10 * a - 87)
            * unit)) by (nonlinear_arith);
    }
}

proof fn lemma_values_differ(v: int, w: int, p: int, q: int, unit: int, g: int, o: int)
    requires
        unit == 0x100_0000_0000 * g,
        g > 0,
        -(250_000_000_000_000_000_000_000 * g) <= 10_000_000_000_000_000 * v - p * unit
            <= 250_000_000_000_000_000_000_000 * g,
        -(250_000_000_000_000_000_000_000 * g) <= 10_000_000_000_000_000 * w - q * unit
            <= 250_000_000_000_000_000_000_000 * g,
        -(1_000_000_000_000 * o - 1_000_000_000_000) <= q - p <= 1_000_000_000_000 * o
            - 1_000_000_000_000,
    ensures
        -(o * unit) <= 10_000 * (w - v) <= o * unit,
{
    let c = 1_000_000_000_000 * o - 1_000_000_000_000;
    let d = q - p;
    assert(-(c * unit) <= d * unit <= c * unit) by (nonlinear_arith)
        requires
            -c <= d <= c,
            unit >= 0,
    ;
    assert(d * unit == q * unit - p * unit) by (nonlinear_arith)
        requires
            d == q - p,
    ;
    assert(c * unit == 1_000_000_000_000 * (o * unit) - 1_000_000_000_000 * unit)
        by (nonlinear_arith)
        requires
            c == 1_000_000_000_000 * o - 1_000_000_000_000,
    ;
}

/// The polynomial of the first octave is near to the straight line.
proof fn lemma_straight_line(a: int, p: int, unit: int)
    requires
        60 <= a <= 200,
        unit >= 0,
        p == ({
            let n = parts_of_row(0);
            ((n.0 * a + n.1) * a + n.2) * a + n.3
        }),
    ensures
        -(1_900_000_000_000_000 * unit) <= p * unit - 110_200_000_000_000 * (10 * a - 87) * unit
            <= 1_900_000_000_000_000 * unit,
{
    reveal(parts_of_row);
    let n = parts_of_row(0);
    lemma_polynomial_between(n.0, n.1, n.2 - 1_102_000_000_000_000, n.3 + 9_587_400_000_000_000, a);
    let d = ((n.0 * a + n.1) * a + (n.2 - 1_102_000_000_000_000)) * a + (n.3
        + 9_587_400_000_000_000);
    let q = (n.0 * a + n.1) * a;
    assert((q + (n.2 - 1_102_000_000_000_000)) * a == (q + n.2) * a - 1_102_000_000_000_000 * a)
        by (nonlinear_arith);
    assert(d == p - 110_200_000_000_000 * (10 * a - 87));
    assert(-1_900_000_000_000_000 <= d <= 1_900_000_000_000_000);
    assert(-(1_900_000_000_000_000 * unit) <= d * unit <= 1_900_000_000_000_000 * unit)
        by (nonlinear_arith)
        requires
            -1_900_000_000_000_000 <= d <= 1_900_000_000_000_000,
            unit >= 0,
    ;
    let line = 110_200_000_000_000 * (10 * a - 87);
    assert(d * unit == p * unit - line * unit) by (nonlinear_arith)
        requires
            d == p - line,
    ;
}

} // verus!
