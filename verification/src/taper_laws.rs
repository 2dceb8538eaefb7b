//! What each window function gives, and how a window stands over a frame.
use crate::arith::{difference, negated, product, quotient, sum, whole};
use crate::bounds::{
    lemma_double_of, lemma_exact_difference, lemma_exact_product, lemma_exact_quotient, lemma_half,
    lemma_nearest_at_most, lemma_nearest_exists, lemma_scaled_monotone, lemma_whole,
    lemma_whole_difference, lemma_whole_product, lemma_whole_quotient, lemma_whole_sum, plain,
};
use crate::config::ConfigView;
use crate::crumbs::lemma_whole_below_zero;
use crate::double::{lemma_scaled_increases, scaled, Double, INFINITE};
use crate::root::{law_roots_of_squares_are_exact, root};
use crate::rounding::lemma_exact_is_nearest;
use crate::taper::{
    added, factors, kaiser_attenuation, sample_value, scale, unscaled, weight, weighted,
    whole_density, Values,
};
use crate::timeparse::half;
use crate::window::{
    absolute, bartlett, bessel, bessel_count, bessel_grows, bessel_settled, bessel_sum,
    bessel_term, dolph_norm, dolph_raw, hamming, hann, is_bessel, kaiser, kaiser_radicand,
    kaiser_shape, raised_cosine, ratio,
};
use crate::window_laws::{
    lemma_difference_is_close, lemma_half_of, lemma_one_times, lemma_product_is_close,
    lemma_ratio_within_one, lemma_rounding_moves_little, within_one,
};
use vstd::arithmetic::power2::{
    lemma2_to64, lemma_pow2_adds, lemma_pow2_pos, lemma_pow2_unfold, pow2,
};
use vstd::prelude::*;

verus! {

/// How many points of a frame the sound leaves out.
pub open spec fn missing(end: int) -> int {
    if end < 0 {
        -end
    } else {
        end
    }
}

/// Whether a point stands where there is sound: from `end` on while it has not begun, and
/// up to `end` before the last point when it has ended.
pub open spec fn sounds(dft_size: int, end: int, i: int) -> bool {
    end <= i && i <= dft_size + end && 0 <= i <= dft_size
}

/// A window over part of a frame is the whole window of a frame with as many points fewer
/// as are missing, at its end or at its start, and nothing anywhere else.
pub proof fn law_a_part_has_a_window_of_its_own(
    c: ConfigView,
    v: Values,
    dft_size: int,
    end: int,
    i: int,
)
    requires
        0 <= dft_size,
        -dft_size <= end <= dft_size,
        0 <= i <= dft_size,
    ensures
        unscaled(c, v, dft_size, end).len() == dft_size + 1,
        !sounds(dft_size, end, i) ==> unscaled(c, v, dft_size, end)[i] == whole(0),
        sounds(dft_size, end, i) && end >= 0 ==> unscaled(c, v, dft_size, end)[i] == unscaled(
            c,
            v,
            dft_size - missing(end),
            0,
        )[i - end],
        sounds(dft_size, end, i) && end < 0 ==> unscaled(c, v, dft_size, end)[i] == unscaled(
            c,
            v,
            dft_size - missing(end),
            0,
        )[i],
{
}

/// A rectangular window leaves every sample as it is: each of its points is one, and there
/// are as many of them as there is sound.
pub proof fn law_rectangular_windows_are_flat(
    c: ConfigView,
    v: Values,
    dft_size: int,
    end: int,
    i: int,
)
    requires
        c.win_type is Rectangular,
        0 <= dft_size,
        -dft_size <= end <= dft_size,
        0 <= i <= dft_size,
    ensures
        unscaled(c, v, dft_size, end)[i] == whole(
            if sounds(dft_size, end, i) {
                1
            } else {
                0
            },
        ),
{
}

/// How many of the first `k` points of a frame stand where there is sound.
pub open spec fn heard(dft_size: int, end: int, k: int) -> int {
    if end >= 0 {
        if k <= end {
            0
        } else {
            k - end
        }
    } else if k <= dft_size + end {
        k
    } else {
        dft_size + end + 1
    }
}

proof fn lemma_flat_sum(c: ConfigView, v: Values, dft_size: int, end: int, k: int)
    requires
        c.win_type is Rectangular,
        0 <= dft_size < i32::MAX,
        -dft_size <= end <= dft_size,
        0 <= k <= dft_size,
    ensures
        added(unscaled(c, v, dft_size, end), k) == whole(heard(dft_size, end, k)),
    decreases k,
{
    if k > 0 {
        lemma_flat_sum(c, v, dft_size, end, k - 1);
        law_rectangular_windows_are_flat(c, v, dft_size, end, k - 1);
        lemma_whole_sum(heard(dft_size, end, k - 1), 1);
        lemma_whole_sum(heard(dft_size, end, k - 1), 0);
    }
}

/// The sum of a rectangular window is the number of points where there is sound; that of a
/// whole window is the length of the frame. Every sample of a whole frame is weighted alike,
/// by two parts in that length.
pub proof fn law_rectangular_windows_count_points(
    c: ConfigView,
    v: Values,
    dft_size: int,
    end: int,
    i: int,
)
    requires
        c.win_type is Rectangular,
        1 <= dft_size < i32::MAX,
        -dft_size <= end <= dft_size,
        0 <= i < dft_size,
    ensures
        added(unscaled(c, v, dft_size, end), dft_size) == whole(heard(dft_size, end, dft_size)),
        whole_density(c, v, dft_size) == whole(dft_size),
        factors(c, v, dft_size, 0).len() == dft_size + 1,
        factors(c, v, dft_size, 0)[i] == ratio(2, dft_size),
        !sounds(dft_size, end, i) && plain(
            scale(whole(heard(dft_size, end, dft_size)), dft_size, end),
        ) ==> factors(c, v, dft_size, end)[i] == whole(0),
{
    lemma_flat_sum(c, v, dft_size, end, dft_size);
    lemma_flat_sum(c, v, dft_size, 0, dft_size);
    lemma_whole(2);
    lemma_whole(dft_size);
    lemma_ratio_is_number(2, dft_size);
    law_whole_windows_are_scaled_to_two(whole(dft_size), dft_size);
    law_rectangular_windows_are_flat(c, v, dft_size, 0, i);
    law_rectangular_windows_are_flat(c, v, dft_size, end, i);
    lemma_one_times(ratio(2, dft_size));
    let factor = scale(whole(heard(dft_size, end, dft_size)), dft_size, end);
    if plain(factor) {
        lemma_times_zero(factor);
        let (a, b) = (scaled(whole(0).magnitude()), scaled(factor.magnitude()));
        assert(a * b == b * a) by (nonlinear_arith);
        lemma_whole(0);
    }
}

/// A quotient of whole numbers is a number.
pub proof fn lemma_ratio_is_number(n: int, d: int)
    requires
        0 <= n <= 0x20_0000_0000_0000,
        1 <= d <= 0x20_0000_0000_0000,
    ensures
        !ratio(n, d).nan(),
        !ratio(n, d).negative(),
{
    lemma_whole(n);
    lemma_whole(d);
    lemma_pow2_pos(1074);
    let den = scaled(whole(d).magnitude());
    assert(den > 0) by (nonlinear_arith)
        requires
            den == d * pow2(1074),
            d >= 1,
            pow2(1074) > 0,
    ;
    lemma_nearest_exists(scaled(whole(n).magnitude()) * pow2(1074), den);
}

/// A number times one is the number.
pub proof fn lemma_times_one(w: Double)
    requires
        !w.nan(),
    ensures
        product(w, whole(1)) == w,
{
    let one = whole(1);
    lemma_one_times(w);
    let a = scaled(w.magnitude());
    let b = scaled(one.magnitude());
    assert(a * b == b * a) by (nonlinear_arith);
    lemma_whole(1);
}

/// A window over a whole frame is scaled so that its points add up to two: by two over
/// their sum.
pub proof fn law_whole_windows_are_scaled_to_two(density: Double, dft_size: int)
    requires
        1 <= dft_size < i32::MAX,
        !quotient(whole(2), density).nan(),
    ensures
        scale(density, dft_size, 0) == quotient(whole(2), density),
{
    assert(1 * dft_size == dft_size);
    lemma_whole_quotient(1, dft_size);
    lemma_whole_product(1, 1);
    lemma_times_one(quotient(whole(2), density));
}

/// A fraction of at most one is rounded by no more than 2^-52.
proof fn lemma_ratio_is_close(n: int, d: int)
    requires
        0 <= n <= d,
        1 <= d <= 0x20_0000_0000_0000,
    ensures
        plain(ratio(n, d)),
        within_one(ratio(n, d)),
        -(pow2(1022) * d) <= ratio(n, d).value() * d - n * pow2(1074) <= pow2(1022) * d,
{
    lemma_ratio_within_one(n, d);
    lemma_whole(n);
    lemma_whole(d);
    lemma_pow2_pos(1074);
    let unit = pow2(1074) as int;
    let err = pow2(1022) as int;
    let num = scaled(whole(n).magnitude()) * pow2(1074);
    let den = scaled(whole(d).magnitude());
    assert(den > 0) by (nonlinear_arith)
        requires
            den == d * unit,
            d >= 1,
            unit > 0,
    ;
    assert(whole(d).magnitude() > 0) by {
        assert(scaled(0) == 0);
    }
    assert(num <= 2 * pow2(1074) * den) by (nonlinear_arith)
        requires
            num == (n * unit) * unit,
            den == d * unit,
            pow2(1074) == unit,
            0 <= n <= d,
            unit > 0,
    ;
    lemma_rounding_moves_little(num, den);
    let v = ratio(n, d).value();
    assert(-(err * d) <= v * d - n * unit <= err * d) by (nonlinear_arith)
        requires
            -(err * den) <= v * den - num <= err * den,
            num == (n * unit) * unit,
            den == d * unit,
            unit > 0,
    ;
}

/// What is left of `a` parts in `d` when `b` of them are taken off times a cosine.
proof fn lemma_raised_cosine(a: int, b: int, d: int, cosine: Double)
    requires
        0 <= a <= d,
        0 <= b <= d,
        1 <= d <= 0x20_0000_0000_0000,
        within_one(cosine),
    ensures
        raised_cosine(ratio(a, d), ratio(b, d), cosine).finite(),
        -(pow2(1024) * d) <= raised_cosine(ratio(a, d), ratio(b, d), cosine).value() * d - (a
            * pow2(1074) - b * cosine.value()) <= pow2(1024) * d,
{
    let unit = pow2(1074) as int;
    let err = pow2(1022) as int;
    lemma_pow2_pos(1074);
    lemma_pow2_unfold(1024);
    lemma_pow2_unfold(1023);
    lemma_ratio_is_close(a, d);
    lemma_ratio_is_close(b, d);
    let base = ratio(a, d);
    let swing = ratio(b, d);
    lemma_product_is_close(swing, cosine);
    let p = product(swing, cosine);
    lemma_difference_is_close(base, p);
    let r = difference(base, p).value();
    let (bv, sv, pv, x) = (base.value(), swing.value(), p.value(), cosine.value());
    assert(-(2 * err * d) <= pv * d - b * x <= 2 * err * d) by (nonlinear_arith)
        requires
            -(err * unit) <= pv * unit - sv * x <= err * unit,
            -(err * d) <= sv * d - b * unit <= err * d,
            -unit <= x <= unit,
            unit > 0,
            d >= 1,
            err >= 0,
    {
        assert(-(err * d * unit) <= (sv * d - b * unit) * x <= err * d * unit) by (nonlinear_arith)
            requires
                -(err * d) <= sv * d - b * unit <= err * d,
                -unit <= x <= unit,
                unit > 0,
        ;
        assert((sv * d - b * unit) * x == d * (sv * x) - b * x * unit) by (nonlinear_arith);
        assert(-(err * unit * d) <= (pv * unit - sv * x) * d <= err * unit * d) by (nonlinear_arith)
            requires
                -(err * unit) <= pv * unit - sv * x <= err * unit,
                d >= 1,
        ;
        assert((pv * unit - sv * x) * d == pv * d * unit - d * (sv * x)) by (nonlinear_arith);
        assert(err * d * unit == err * unit * d) by (nonlinear_arith);
        assert((pv * d - b * x) * unit == pv * d * unit - b * x * unit) by (nonlinear_arith);
        assert((2 * err * d) * unit == 2 * (err * d * unit)) by (nonlinear_arith);
        assert(-((2 * err * d) * unit) <= (pv * d - b * x) * unit <= (2 * err * d) * unit);
        assert((-(2 * err * d)) * unit == -((2 * err * d) * unit)) by (nonlinear_arith);
    }
    assert(-(4 * err * d) <= r * d - (a * unit - b * x) <= 4 * err * d) by (nonlinear_arith)
        requires
            -err <= r - (bv - pv) <= err,
            -(err * d) <= bv * d - a * unit <= err * d,
            -(2 * err * d) <= pv * d - b * x <= 2 * err * d,
            d >= 1,
            err >= 0,
    ;
    assert(pow2(1024) == 4 * err);
}

/// A point of a Hann window is half of what the cosine of its angle leaves of one, but for
/// 2^-50: nothing where the cosine is one, and one where it is minus one.
pub proof fn law_hann_windows_are_raised_cosines(c: ConfigView, v: Values, n: int, i: int)
    requires
        c.win_type is Hann,
        within_one(v.cosines@[i]),
    ensures
        weight(c, v, n, i).finite(),
        -(2 * pow2(1024)) <= 2 * weight(c, v, n, i).value() - (pow2(1074)
            - v.cosines@[i].value()) <= 2 * pow2(1024),
{
    let x = v.cosines@[i];
    lemma_raised_cosine(1, 1, 2, x);
    lemma_one_times(hann(x));
    assert(1 * x.value() == x.value());
    assert(1 * pow2(1074) == pow2(1074));
}

/// A point of a Hamming window is 0.53836 less 0.46164 times the cosine of its angle, but
/// for 2^-50.
pub proof fn law_hamming_windows_are_raised_cosines(c: ConfigView, v: Values, n: int, i: int)
    requires
        c.win_type is Hamming,
        within_one(v.cosines@[i]),
    ensures
        weight(c, v, n, i).finite(),
        -(100000 * pow2(1024)) <= 100000 * weight(c, v, n, i).value() - (53836 * pow2(1074) - 46164
            * v.cosines@[i].value()) <= 100000 * pow2(1024),
{
    let x = v.cosines@[i];
    lemma_raised_cosine(53836, 46164, 100000, x);
    lemma_one_times(hamming(x));
}

/// The smaller one of the ways from a point to the two ends of `n` points.
pub open spec fn to_the_end(i: int, n: int) -> int {
    if i <= n - 1 - i {
        i
    } else {
        n - 1 - i
    }
}

/// A point of a Bartlett window is as many times twice one part in `n - 1` as it is away
/// from the nearer end: nothing at both ends.
pub proof fn law_bartlett_windows_are_triangles(c: ConfigView, v: Values, n: int, i: int)
    requires
        c.win_type is Bartlett,
        2 <= n <= i32::MAX,
        0 <= i < n,
    ensures
        weight(c, v, n, i) == product(ratio(2, n - 1), whole(to_the_end(i, n))),
        weight(c, v, n, 0) == whole(0),
        weight(c, v, n, n - 1) == whole(0),
{
    lemma_bartlett(i, n);
    lemma_bartlett(0, n);
    lemma_bartlett(n - 1, n);
    lemma_ratio_is_number(2, n - 1);
    lemma_small_ratio(n - 1);
    lemma_times_zero(ratio(2, n - 1));
}

/// Two parts in a number are a finite number of at most two.
proof fn lemma_small_ratio(m: int)
    requires
        1 <= m <= i32::MAX,
    ensures
        plain(ratio(2, m)),
        scaled(ratio(2, m).magnitude()) <= 2 * pow2(1074),
{
    lemma_whole(2);
    lemma_whole(m);
    lemma_pow2_pos(1074);
    let unit = pow2(1074);
    let num = scaled(whole(2).magnitude()) * unit;
    let den = scaled(whole(m).magnitude());
    assert(den >= unit) by (nonlinear_arith)
        requires
            den == m * unit,
            m >= 1,
    ;
    assert(num <= scaled(whole(2).magnitude()) * den) by (nonlinear_arith)
        requires
            num == scaled(whole(2).magnitude()) * unit,
            den >= unit,
    ;
    assert(whole(m).magnitude() > 0) by {
        assert(scaled(0) == 0);
    }
    lemma_nearest_at_most(num, den, whole(2).magnitude());
    lemma_scaled_monotone(ratio(2, m).magnitude(), whole(2).magnitude());
}

/// A number of at least zero times zero is zero.
pub proof fn lemma_times_zero(a: Double)
    requires
        plain(a),
    ensures
        product(a, whole(0)) == whole(0),
{
    lemma_whole(0);
    lemma_pow2_pos(1074);
    let v = scaled(whole(0).magnitude());
    assert(v == 0);
    assert(scaled(a.magnitude()) * v == 0) by (nonlinear_arith)
        requires
            v == 0,
    ;
    assert(scaled(0) == 0);
    if whole(0).magnitude() > 0 {
        lemma_scaled_increases(0, whole(0).magnitude());
    }
    assert(0 * pow2(1074) == 0);
    lemma_nearest_at_most(0, pow2(1074), 0);
}

/// How far two numbers are apart, where that is a double.
proof fn lemma_exact_distance(a: Double, b: Double, r: Double)
    requires
        plain(a),
        plain(b),
        plain(r),
        scaled(b.magnitude()) - scaled(a.magnitude()) == scaled(r.magnitude()),
    ensures
        absolute(difference(a, b)) == r,
{
    let s = scaled(r.magnitude());
    assert(negated(b).value() == -(scaled(b.magnitude()) as int));
    assert(scaled(0) == 0);
    assert(s * 1 == s);
    if s == 0 {
        if r.magnitude() > 0 {
            lemma_scaled_increases(0, r.magnitude());
        }
    } else {
        lemma_exact_is_nearest(r.magnitude(), s, 1);
    }
}

proof fn lemma_bartlett(i: int, n: int)
    requires
        2 <= n <= i32::MAX,
        0 <= i < n,
    ensures
        product(whole(1), bartlett(i, n)) == product(ratio(2, n - 1), whole(to_the_end(i, n))),
{
    let m = n - 1;
    let mid = quotient(whole(m), whole(2));
    // twice how far the point is from the middle
    let off = if 2 * i < m {
        m - 2 * i
    } else {
        2 * i - m
    };
    let apart = quotient(whole(off), whole(2));
    let k = to_the_end(i, n);
    lemma_half_of(m);
    lemma_half_of(off);
    lemma_whole(i);
    lemma_whole(k);
    let unit = pow2(1074) as int;
    let (a, h) = (scaled(whole(i).magnitude()) as int, scaled(mid.magnitude()) as int);
    let s = scaled(apart.magnitude()) as int;
    if 2 * i < m {
        assert(h - a == s) by (nonlinear_arith)
            requires
                a == i * unit,
                2 * h == m * unit,
                2 * s == off * unit,
                off == m - 2 * i,
        ;
        lemma_exact_distance(whole(i), mid, apart);
    } else {
        assert(a - h == s) by (nonlinear_arith)
            requires
                a == i * unit,
                2 * h == m * unit,
                2 * s == off * unit,
                off == 2 * i - m,
        ;
        lemma_exact_difference(whole(i), mid, apart);
    }
    assert(absolute(difference(whole(i), mid)) == apart);
    assert(h - s == k * unit) by (nonlinear_arith)
        requires
            2 * h == m * unit,
            2 * s == off * unit,
            2 * k == m - off,
    ;
    lemma_exact_difference(mid, apart, whole(k));
    lemma_small_ratio(m);
    lemma_part_of_whole(ratio(2, m), k);
    assert(bartlett(i, n) == product(ratio(2, m), whole(k)));
    lemma_one_times(bartlett(i, n));
}

/// A finite number times a whole number is a number.
proof fn lemma_part_of_whole(a: Double, k: int)
    requires
        plain(a),
        0 <= k <= i32::MAX,
    ensures
        !product(a, whole(k)).nan(),
{
    lemma_whole(k);
    lemma_pow2_pos(1074);
    lemma_nearest_exists(
        scaled(a.magnitude()) * scaled(whole(k).magnitude()),
        pow2(1074),
    );
}

/// The Bessel function of nothing is one.
proof fn lemma_bessel_of_nothing(x: Double)
    requires
        x.magnitude() == 0,
    ensures
        bessel(x) == whole(1),
{
    lemma_whole(1);
    lemma_whole(2);
    lemma_pow2_pos(1074);
    let one = whole(1);
    let unit = pow2(1074);
    assert(scaled(0) == 0);
    assert(1 * unit == unit);
    assert(0 * unit == 0);
    let two = scaled(whole(2).magnitude());
    lemma_nearest_at_most(0, two, 0);
    lemma_nearest_at_most(0, unit, 0);
    assert(whole(2).magnitude() > 0);
    assert(one.magnitude() > 0);
    let h = quotient(x, whole(2));
    assert(h.magnitude() == 0);
    reveal_with_fuel(bessel_count, 2);
    assert(bessel_count(1) == one);
    lemma_nearest_at_most(0, unit, 0);
    let y = quotient(h, one);
    assert(y.magnitude() == 0);
    let y2 = product(y, y);
    assert(y2.magnitude() == 0 && !y2.negative());
    lemma_one_times(y2);
    reveal_with_fuel(bessel_term, 2);
    reveal_with_fuel(bessel_sum, 2);
    assert(bessel_term(x, 1) == y2);
    lemma_exact_is_nearest(one.magnitude(), unit, 1);
    assert(bessel_sum(x, 1) == one);
    assert(!bessel_grows(x, 1));
    assert(bessel_settled(x, 1));
    assert(is_bessel(x, one));
    let r = bessel(x);
    assert(is_bessel(x, r));
    let k = choose|k: nat| bessel_settled(x, k) && r == #[trigger] bessel_sum(x, k);
    if k > 1 {
        assert(bessel_grows(x, 1));
    }
}

/// What the root is taken of in a Kaiser window is nothing at both ends.
proof fn lemma_radicand_at_the_ends(n: int)
    requires
        2 <= n <= i32::MAX,
    ensures
        kaiser_radicand(0, n) == whole(0),
        kaiser_radicand(n - 1, n) == whole(0),
{
    let m = n - 1;
    let one = whole(1);
    lemma_whole_product(2, 0);
    lemma_whole_product(2, m);
    lemma_whole_quotient(0, m);
    lemma_whole_quotient(2, m);
    assert(0 * m == 0);
    lemma_whole_difference(2, 1);
    lemma_whole_difference(1, 1);
    lemma_whole_product(1, 1);
    // one before the middle
    let low = difference(whole(0), one);
    lemma_whole(0);
    lemma_whole(1);
    lemma_pow2_pos(1074);
    assert(1 * pow2(1074) == pow2(1074));
    assert(0 * pow2(1074) == 0);
    assert(negated(one).value() == -(pow2(1074) as int));
    lemma_exact_is_nearest(one.magnitude(), pow2(1074), 1);
    assert(low == negated(one));
    assert(product(low, low) == product(one, one));
}

/// What the root is taken of in a Kaiser window is one in the middle.
proof fn lemma_radicand_in_the_middle(k: int)
    requires
        1 <= k < 0x4000_0000,
    ensures
        kaiser_radicand(k, 2 * k + 1) == whole(1),
{
    lemma_whole_product(2, k);
    assert(1 * (2 * k) == 2 * k);
    lemma_whole_quotient(1, 2 * k);
    lemma_whole_difference(1, 1);
    lemma_whole_product(0, 0);
    lemma_whole_difference(1, 0);
}

/// A Kaiser window stands highest in the middle, where it is one, and falls to one over the
/// Bessel function of its shape at both ends.
pub proof fn law_kaiser_windows_fall_from_one(beta: Double, k: int)
    requires
        1 <= k < 0x4000_0000,
        plain(beta),
        plain(bessel(beta)),
        bessel(beta).magnitude() > 0,
    ensures
        kaiser(beta, k, 2 * k + 1) == whole(1),
        kaiser(beta, 0, 2 * k + 1) == quotient(whole(1), bessel(beta)),
        kaiser(beta, 2 * k, 2 * k + 1) == quotient(whole(1), bessel(beta)),
{
    lemma_radicand_in_the_middle(k);
    lemma_radicand_at_the_ends(2 * k + 1);
    lemma_plain_roots();
    lemma_times_one(beta);
    lemma_times_zero(beta);
    lemma_over_itself(bessel(beta));
    lemma_bessel_of_nothing(whole(0));
}

/// One and nothing are their own roots.
pub proof fn lemma_plain_roots()
    ensures
        root(whole(1)) == whole(1),
        root(whole(0)) == whole(0),
        whole(0).magnitude() == 0,
{
    let one = whole(1);
    lemma_whole(1);
    lemma_whole(0);
    lemma_pow2_pos(1074);
    let unit = pow2(1074);
    assert(1 * unit == unit);
    assert(0 * unit == 0);
    assert(scaled(0) == 0);
    assert(one.magnitude() > 0);
    law_roots_of_squares_are_exact(one, one);
    if whole(0).magnitude() > 0 {
        lemma_scaled_increases(0, whole(0).magnitude());
    }
}

/// A number over itself is one.
pub proof fn lemma_over_itself(a: Double)
    requires
        a.finite(),
        a.magnitude() > 0,
    ensures
        quotient(a, a) == whole(1),
{
    let s = scaled(a.magnitude());
    lemma_scaled_increases(0, a.magnitude());
    assert(scaled(0) == 0);
    lemma_whole(1);
    assert(1 * pow2(1074) == pow2(1074));
    assert(s * pow2(1074) == pow2(1074) * s) by (nonlinear_arith);
    lemma_exact_is_nearest(whole(1).magnitude(), s * pow2(1074), s);
}

/// A Kaiser window of a configuration is the one of the shape that its attenuation asks for.
pub proof fn law_kaiser_windows_have_their_shape(c: ConfigView, v: Values, k: int, beta: Double)
    requires
        c.win_type is Kaiser,
        1 <= k < 0x4000_0000,
        beta == kaiser_shape(
            kaiser_attenuation(c),
            v.octaves,
            v.power,
        ),
        plain(beta),
        plain(bessel(beta)),
        bessel(beta).magnitude() > 0,
    ensures
        weight(c, v, 2 * k + 1, k) == whole(1),
        !quotient(whole(1), bessel(beta)).nan() ==> weight(c, v, 2 * k + 1, 0) == quotient(
            whole(1),
            bessel(beta),
        ),
{
    law_kaiser_windows_fall_from_one(beta, k);
    lemma_whole(1);
    lemma_one_times(whole(1));
    if !quotient(whole(1), bessel(beta)).nan() {
        lemma_one_times(quotient(whole(1), bessel(beta)));
    }
}

/// A Dolph window is one in the middle, wherever its series comes to anything there.
pub proof fn law_dolph_windows_are_one_in_the_middle(c: ConfigView, v: Values, n: int)
    requires
        c.win_type is Dolph,
        1 <= n <= i32::MAX,
        ({
            let b = difference(whole(1), quotient(whole(1), product(v.b0, v.b0)));
            let raw = dolph_raw(b, n, (n - 1) / 2);
            raw.finite() && raw.magnitude() > 0
        }),
    ensures
        weight(c, v, n, (n - 1) / 2) == whole(1),
        weight(c, v, n, n / 2) == whole(1),
{
    let b = difference(whole(1), quotient(whole(1), product(v.b0, v.b0)));
    let p = (n - 1) / 2;
    let raw = dolph_raw(b, n, p);
    reveal_with_fuel(dolph_norm, 2);
    assert(dolph_norm(b, n, p + 1) == whole(0));
    lemma_whole(0);
    assert(dolph_norm(b, n, p) == raw);
    lemma_over_itself(raw);
    lemma_whole(1);
    lemma_one_times(whole(1));
}

/// A sample is that many parts of 2^31 of full level, exactly and with its sign, and it is
/// weighted by the weight at its own place.
pub proof fn law_samples_are_parts_of_full_level(frame: Seq<i32>, weights: Seq<Double>, i: int)
    requires
        0 <= i < frame.len(),
    ensures
        sample_value(frame[i]).finite(),
        sample_value(frame[i]).value() * 0x8000_0000 == frame[i] * pow2(1074),
        weighted(frame, weights).len() == frame.len(),
        weights[i] == whole(1) ==> weighted(frame, weights)[i] == sample_value(frame[i]),
        weights[i] == whole(0) ==> weighted(frame, weights)[i].magnitude() == 0,
{
    let s = frame[i] as int;
    let n = if s < 0 {
        -s
    } else {
        s
    };
    let part = ratio(1, 0x8000_0000);
    let unit = pow2(1074) as int;
    let step = pow2(1043) as int;
    lemma_pow2_pos(1043);
    lemma_pow2_adds(31, 1043);
    lemma2_to64();
    assert(unit == 0x8000_0000 * step);
    lemma_whole(1);
    lemma_whole(0x8000_0000);
    lemma_whole(n);
    let mag = lemma_double_of(1, 1043);
    let d = Double { bits: mag };
    assert(1 * step == step && 1 * unit == unit);
    let big = scaled(whole(0x8000_0000).magnitude()) as int;
    assert(unit * unit == step * big) by (nonlinear_arith)
        requires
            big == 0x8000_0000 * unit,
            unit == 0x8000_0000 * step,
    ;
    assert(whole(0x8000_0000).magnitude() > 0) by {
        assert(scaled(0) == 0);
    }
    lemma_exact_quotient(whole(1), whole(0x8000_0000), d);
    assert(part == d);
    lemma_sample_value(n);
    if s < 0 {
        lemma_whole_below_zero(n);
        let (x, y) = (product(whole(n), part), product(whole(s), part));
        assert(whole(s).magnitude() == whole(n).magnitude() && whole(s).negative());
        assert(x.magnitude() == y.magnitude());
        assert(y.value() == -x.value());
        assert(s * pow2(1074) == -(n * pow2(1074))) by (nonlinear_arith)
            requires
                s == -n,
        ;
    }
    let v = sample_value(frame[i]);
    if weights[i] == whole(1) {
        lemma_times_one(v);
    }
    if weights[i] == whole(0) {
        lemma_plain_roots();
        assert(scaled(0) == 0);
        assert(scaled(v.magnitude()) * 0 == 0);
        lemma_nearest_at_most(0, pow2(1074), 0);
    }
}

/// A number of samples steps of 2^-31.
proof fn lemma_sample_value(n: int)
    requires
        0 <= n <= 0x8000_0000,
        ratio(1, 0x8000_0000).magnitude() < INFINITE,
        !ratio(1, 0x8000_0000).negative(),
        scaled(ratio(1, 0x8000_0000).magnitude()) == pow2(1043),
    ensures
        plain(product(whole(n), ratio(1, 0x8000_0000))),
        product(whole(n), ratio(1, 0x8000_0000)).value() * 0x8000_0000 == n * pow2(1074),
{
    let part = ratio(1, 0x8000_0000);
    let unit = pow2(1074) as int;
    let step = pow2(1043) as int;
    lemma_pow2_pos(1043);
    lemma_pow2_adds(31, 1043);
    lemma2_to64();
    lemma_whole(n);
    lemma_whole(0);
    assert(n * unit == (n * step) * 0x8000_0000) by (nonlinear_arith)
        requires
            unit == 0x8000_0000 * step,
    ;
    if n == 0 {
        lemma_plain_roots();
        assert(scaled(0) == 0);
        assert(0 * pow2(1043) == 0);
        lemma_exact_product(whole(n), part, whole(0));
        assert(0 * step == 0);
    } else {
        let mag = lemma_double_of(n as nat, 1043);
        let d = Double { bits: mag };
        let w = scaled(whole(n).magnitude()) as int;
        assert(w * step == (n * step) * unit) by (nonlinear_arith)
            requires
                w == n * unit,
        ;
        lemma_exact_product(whole(n), part, d);
    }
}

/// What a part of a frame is scaled by does not depend on which end of it is missing, and
/// half of a frame counts for a quarter of what a whole one does.
pub proof fn law_parts_of_frames_count_for_less(density: Double, k: int, end: int)
    requires
        1 <= k < 0x3FFF_FFFF,
        -2 * k <= end <= 2 * k,
    ensures
        scale(density, 2 * k, end) == scale(density, 2 * k, -end),
        scale(density, 2 * k, k) == product(quotient(whole(2), density), ratio(1, 4)),
        scale(density, 2 * k, -k) == product(quotient(whole(2), density), ratio(1, 4)),
{
    let unit = pow2(1074) as int;
    lemma_pow2_pos(1074);
    lemma_pow2_unfold(1074);
    lemma_pow2_unfold(1073);
    lemma_whole(k);
    lemma_whole(2 * k);
    lemma_whole(1);
    lemma_whole(4);
    lemma_half();
    let q = Double { bits: lemma_double_of(1, 1072) };
    let quarter = pow2(1072) as int;
    assert(1 * quarter == quarter && 1 * unit == unit);
    assert(unit == 4 * quarter);
    let (a, b) = (scaled(whole(k).magnitude()) as int, scaled(whole(2 * k).magnitude()) as int);
    let h = scaled(half().magnitude()) as int;
    let f = scaled(whole(4).magnitude()) as int;
    assert(a * unit == h * b) by (nonlinear_arith)
        requires
            a == k * unit,
            b == 2 * k * unit,
            2 * h == unit,
    ;
    assert(b > 0) by (nonlinear_arith)
        requires
            b == 2 * k * unit,
            k >= 1,
            unit > 0,
    ;
    assert(unit * unit == quarter * f) by (nonlinear_arith)
        requires
            f == 4 * unit,
            unit == 4 * quarter,
    ;
    assert(h * h == quarter * unit) by (nonlinear_arith)
        requires
            2 * h == unit,
            unit == 4 * quarter,
    ;
    assert(scaled(0) == 0);
    lemma_exact_quotient(whole(k), whole(2 * k), half());
    lemma_exact_quotient(whole(1), whole(4), q);
    lemma_exact_product(half(), half(), q);
}

} // verus!
