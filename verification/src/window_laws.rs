//! What holds of the window functions as a family.
use crate::arith::{difference, negated, product, quotient, whole};
use crate::bounds::{
    lemma_fraction_at_most_one, lemma_nearest_at_least, lemma_nearest_at_most, lemma_nearest_exists,
    lemma_scaled_monotone, lemma_whole, lemma_whole_and_half, lemma_whole_product, plain,
};
use crate::config::ConfigView;
use crate::double::{scaled, Double, HIDDEN, INFINITE};
use crate::rounding::{lemma_exact_is_nearest, nearest};
use crate::taper::{weight, Values};
use crate::window::{
    absolute, bartlett, hamming, hann, kaiser_radicand, raised_cosine, ratio, windowed, WindowType,
};
use vstd::arithmetic::div_mod::lemma_fundamental_div_mod_converse;
use vstd::arithmetic::power2::{
    lemma2_to64, lemma2_to64_rest, lemma_pow2_adds, lemma_pow2_pos, lemma_pow2_strictly_increases,
    lemma_pow2_unfold, pow2,
};
use vstd::prelude::*;

verus! {

/// How many steps it takes from one window function to another.
pub open spec fn steps_between(from: WindowType, to: WindowType) -> int {
    (to.place() - from.place()) % 6
}

/// Stepping through the window functions reaches every one of them in fewer than six
/// steps, and comes back to the first with the sixth.
pub proof fn law_every_window_comes_round(from: WindowType, to: WindowType)
    ensures
        0 <= steps_between(from, to) < 6,
        (from.place() + steps_between(from, to)) % 6 == to.place(),
        (from.place() + 6) % 6 == from.place(),
        from.place() == to.place() ==> from == to,
{
}

/// Half of a whole number is a double.
pub proof fn lemma_half_of(m: int)
    requires
        0 <= m < 0x8_0000_0000_0000,
    ensures
        plain(quotient(whole(m), whole(2))),
        2 * scaled(quotient(whole(m), whole(2)).magnitude()) == m * pow2(1074),
{
    if m % 2 == 1 {
        let n = m / 2;
        assert(m == 2 * n + 1);
        lemma_whole_and_half(n);
    } else {
        let n = m / 2;
        lemma_whole(m);
        lemma_whole(2);
        lemma_whole(n);
        lemma_pow2_pos(1074);
        let unit = pow2(1074);
        let v = scaled(whole(m).magnitude());
        let two = scaled(whole(2).magnitude());
        let s = scaled(whole(n).magnitude());
        assert(v * unit == s * two) by (nonlinear_arith)
            requires
                v == m * unit,
                two == 2 * unit,
                s == n * unit,
                m == 2 * n,
        ;
        lemma_nearest_at_most(v * unit, two, whole(n).magnitude());
        lemma_nearest_at_least(v * unit, two, whole(n).magnitude());
        assert(two > 0);
        assert(whole(2).magnitude() != 0);
        assert(2 * s == m * unit) by (nonlinear_arith)
            requires
                s == n * unit,
                m == 2 * n,
        ;
    }
}

/// The triangle is the same from either side.
proof fn lemma_bartlett_is_symmetric(n: int, i: int)
    requires
        1 <= n <= 0x8_0000_0000_0000,
        0 <= i < n,
    ensures
        bartlett(i, n) == bartlett(n - 1 - i, n),
{
    let j = n - 1 - i;
    let mid = quotient(whole(n - 1), whole(2));
    lemma_half_of(n - 1);
    lemma_whole(i);
    lemma_whole(j);
    let unit = pow2(1074) as int;
    let a = scaled(whole(i).magnitude()) as int;
    let b = scaled(whole(j).magnitude()) as int;
    let m = scaled(mid.magnitude()) as int;
    assert(a - m == -(b - m)) by (nonlinear_arith)
        requires
            a == i * unit,
            b == j * unit,
            2 * m == (n - 1) * unit,
            j == n - 1 - i,
    ;
    let away = (if a < m {
        m - a
    } else {
        a - m
    }) as nat;
    lemma_nearest_exists(away, 1);
    assert(whole(i).value() + negated(mid).value() == a - m);
    assert(whole(j).value() + negated(mid).value() == b - m);
    assert(difference(whole(i), mid).magnitude() == difference(whole(j), mid).magnitude());
}

/// Every window is the same from either side, as far as the values are that it is made
/// of: the cosines of a Hann or Hamming window, and what the root is taken of in a
/// Kaiser window. How close these are is said by [`law_windows_are_nearly_symmetric`] and
/// [`law_kaiser_radicands_are_nearly_symmetric`].
pub proof fn law_windows_are_symmetric(c: ConfigView, v: Values, n: int, i: int)
    requires
        1 <= n <= i32::MAX,
        0 <= i < n,
        c.win_type is Hann || c.win_type is Hamming ==> v.cosines@[i] == v.cosines@[n - 1 - i],
        c.win_type is Kaiser ==> kaiser_radicand(i, n) == kaiser_radicand(n - 1 - i, n),
    ensures
        weight(c, v, n, i) == weight(c, v, n, n - 1 - i),
{
    lemma_bartlett_is_symmetric(n, i);
}

/// `n` ones.
pub open spec fn ones(n: nat) -> Seq<Double> {
    Seq::new(n, |i: int| whole(1))
}

/// One times a number is the number.
pub proof fn lemma_one_times(w: Double)
    requires
        !w.nan(),
    ensures
        product(whole(1), w) == w,
{
    let one = whole(1);
    let unit = pow2(1074);
    lemma_whole(1);
    lemma_pow2_pos(1074);
    assert(1 * unit == unit);
    assert(scaled(0) == 0);
    if w.finite() {
        let s = scaled(w.magnitude());
        assert(unit * s == s * unit) by (nonlinear_arith);
        lemma_exact_is_nearest(w.magnitude(), s * unit, unit);
    }
}

/// A window that multiplies points by weights, as those of Hann, Hamming and Bartlett do,
/// multiplies any points by the weights that it gives to ones.
pub proof fn law_windows_multiply(h: Seq<Double>, weights: Seq<Double>)
    requires
        weights.len() == h.len(),
    ensures
        windowed(h, windowed(ones(h.len()), weights)) == windowed(h, weights),
        forall|i: int|
            0 <= i < h.len() ==> #[trigger] windowed(h, weights)[i] == product(
                h[i],
                windowed(ones(h.len()), weights)[i],
            ),
{
    let w = windowed(ones(h.len()), weights);
    assert forall|i: int| 0 <= i < h.len() implies #[trigger] windowed(h, weights)[i] == product(
        h[i],
        w[i],
    ) by {
        if !weights[i].nan() {
            lemma_one_times(weights[i]);
        }
    }
    assert(windowed(h, w) =~= windowed(h, weights));
}

/// Whether a number is finite and lies between -1 and 1.
pub open spec fn within_one(a: Double) -> bool {
    a.finite() && scaled(a.magnitude()) <= pow2(1074)
}

/// How far apart two finite numbers are, in units of 2^-1074.
pub open spec fn apart(a: Double, b: Double) -> int {
    if a.value() < b.value() {
        b.value() - a.value()
    } else {
        a.value() - b.value()
    }
}

/// Up to two, neighbouring doubles are no more than 2^-51 apart, and rounding moves a
/// fraction by no more than half of that.
pub proof fn lemma_rounding_moves_little(num: nat, den: nat)
    requires
        den > 0,
        num <= 2 * pow2(1074) * den,
    ensures
        nearest(num, den) < INFINITE,
        scaled(nearest(num, den)) <= 2 * pow2(1074),
        -(pow2(1022) * den) <= scaled(nearest(num, den)) * den - num <= pow2(1022) * den,
{
    let m = nearest(num, den);
    let two = whole(2).magnitude();
    lemma_whole(2);
    assert(num <= scaled(two) * den);
    lemma_nearest_at_most(num, den, two);
    lemma_scaled_monotone(m, two);
    lemma_nearest_exists(num, den);
    lemma_pow2_unfold(1023);
    let half = pow2(1022) as int;
    let d = den as int;
    let v = scaled(m) as int;
    lemma_gap(m);
    let up = scaled((m + 1) as u64) as int;
    assert(num - v * d <= half * d) by (nonlinear_arith)
        requires
            2 * num <= (v + up) * d,
            up - v <= 2 * half,
            d > 0,
    ;
    if m > 0 {
        lemma_scaled_monotone((m - 1) as u64, m);
        lemma_gap((m - 1) as u64);
        let down = scaled((m - 1) as u64) as int;
        assert(v * d - num <= half * d) by (nonlinear_arith)
            requires
                2 * num >= (down + v) * d,
                v - down <= 2 * half,
                d > 0,
        ;
    } else {
        assert(v == 0);
        assert(v * d == 0);
        assert(half * d >= 0) by (nonlinear_arith)
            requires
                half >= 0,
                d > 0,
        ;
    }
}

/// Neighbouring doubles up to two are no more than 2^-51 apart.
proof fn lemma_gap(m: u64)
    requires
        m < INFINITE,
        scaled(m) <= 2 * pow2(1074),
    ensures
        scaled((m + 1) as u64) - scaled(m) <= pow2(1023),
{
    let h = HIDDEN as int;
    let e = m as int / h;
    let f = m as int % h;
    lemma_pow2_pos(1023);
    assert(m == e * h + f);
    assert(e <= 1024) by {
        if e >= 1025 {
            // from four on, doubles are larger
            lemma_pow2_adds(52, 1024);
            lemma_pow2_adds(2, 1074);
            lemma2_to64();
            if e > 1025 {
                lemma_pow2_strictly_increases(1024, (e - 1) as nat);
            }
            let p = pow2((e - 1) as nat) as int;
            assert((h + f) * p >= h * pow2(1024)) by (nonlinear_arith)
                requires
                    p >= pow2(1024),
                    f >= 0,
                    h >= 0,
            ;
            lemma2_to64_rest();
            assert(pow2(52) == h);
            assert(h * pow2(1024) == pow2(1076));
            lemma_pow2_pos(1074);
        }
    }
    if e == 0 {
        if f + 1 < h {
            lemma_fundamental_div_mod_converse(m + 1, h, 0, f + 1);
        } else {
            lemma_fundamental_div_mod_converse(m + 1, h, 1, 0);
            lemma2_to64();
            assert(h * pow2(0) == h);
        }
    } else {
        let p = pow2((e - 1) as nat) as int;
        if e < 1024 {
            lemma_pow2_strictly_increases((e - 1) as nat, 1023);
        }
        if f + 1 < h {
            lemma_fundamental_div_mod_converse(m + 1, h, e, f + 1);
            assert((h + f + 1) * p == (h + f) * p + p) by (nonlinear_arith);
        } else {
            lemma_fundamental_div_mod_converse(m + 1, h, e + 1, 0);
            lemma_pow2_unfold(e as nat);
            assert(h * (2 * p) == (h + f) * p + p) by (nonlinear_arith)
                requires
                    f == h - 1,
            ;
        }
    }
}

/// A product of two numbers within one is the exact one but for 2^-52.
pub proof fn lemma_product_is_close(s: Double, c: Double)
    requires
        plain(s),
        within_one(s),
        within_one(c),
    ensures
        within_one(product(s, c)),
        -(pow2(1022) * pow2(1074)) <= product(s, c).value() * pow2(1074) - s.value() * c.value()
            <= pow2(1022) * pow2(1074),
{
    let unit = pow2(1074) as int;
    let a = scaled(s.magnitude()) as int;
    let b = scaled(c.magnitude()) as int;
    lemma_pow2_pos(1074);
    assert(0 <= a * b <= unit * unit) by (nonlinear_arith)
        requires
            0 <= a <= unit,
            0 <= b <= unit,
    ;
    assert(unit * unit <= 2 * unit * unit) by (nonlinear_arith)
        requires
            unit >= 0,
    ;
    lemma_rounding_moves_little((a * b) as nat, unit as nat);
    lemma_whole(1);
    assert(scaled(whole(1).magnitude()) == unit);
    lemma_nearest_at_most((a * b) as nat, unit as nat, whole(1).magnitude());
    let p = product(s, c);
    lemma_scaled_monotone(p.magnitude(), whole(1).magnitude());
    let v = scaled(p.magnitude()) as int;
    assert((-v) * unit == -(v * unit)) by (nonlinear_arith);
    assert(a * (-b) == -(a * b)) by (nonlinear_arith);
}

/// A difference of up to two is the exact one but for 2^-52.
pub proof fn lemma_difference_is_close(a: Double, b: Double)
    requires
        a.finite(),
        b.finite(),
        apart(a, b) <= 2 * pow2(1074),
    ensures
        difference(a, b).finite(),
        -pow2(1022) <= difference(a, b).value() - (a.value() - b.value()) <= pow2(1022),
{
    let v = a.value() - b.value();
    let n = (if v < 0 {
        -v
    } else {
        v
    }) as nat;
    assert(negated(b).value() == -b.value());
    assert(a.value() + negated(b).value() == v);
    lemma_rounding_moves_little(n, 1);
    assert(pow2(1022) * 1 == pow2(1022));
    assert(scaled(0) == 0);
}

proof fn lemma_raised_cosines_are_close(base: Double, swing: Double, a: Double, b: Double)
    requires
        plain(base),
        within_one(base),
        plain(swing),
        within_one(swing),
        within_one(a),
        within_one(b),
    ensures
        raised_cosine(base, swing, a).finite(),
        raised_cosine(base, swing, b).finite(),
        apart(raised_cosine(base, swing, a), raised_cosine(base, swing, b)) <= apart(a, b) + pow2(
            1024,
        ),
{
    let unit = pow2(1074) as int;
    let err = pow2(1022) as int;
    lemma_pow2_pos(1074);
    lemma_pow2_unfold(1023);
    lemma_pow2_unfold(1024);
    lemma_product_is_close(swing, a);
    lemma_product_is_close(swing, b);
    let p = product(swing, a);
    let q = product(swing, b);
    lemma_difference_is_close(base, p);
    lemma_difference_is_close(base, q);
    let e = apart(a, b);
    let s = swing.value();
    let (x, y) = (a.value(), b.value());
    let (pv, qv) = (p.value(), q.value());
    assert(-(e + 2 * err) <= pv - qv <= e + 2 * err) by (nonlinear_arith)
        requires
            -(err * unit) <= pv * unit - s * x <= err * unit,
            -(err * unit) <= qv * unit - s * y <= err * unit,
            0 <= s <= unit,
            -e <= x - y <= e,
            e >= 0,
            unit > 0,
    {
        assert(-(e * unit) <= s * (x - y) <= e * unit) by (nonlinear_arith)
            requires
                0 <= s <= unit,
                -e <= x - y <= e,
                e >= 0,
        ;
        assert(s * (x - y) == s * x - s * y) by (nonlinear_arith);
        assert((pv - qv) * unit == pv * unit - qv * unit) by (nonlinear_arith);
        assert((e + 2 * err) * unit == e * unit + 2 * (err * unit)) by (nonlinear_arith);
    }
}

/// Whether a fraction between 0 and 1 rounds to a number between them.
pub proof fn lemma_ratio_within_one(n: int, d: int)
    requires
        0 <= n <= d,
        1 <= d <= 0x20_0000_0000_0000,
    ensures
        plain(ratio(n, d)),
        within_one(ratio(n, d)),
{
    lemma_fraction_at_most_one(n, d);
    lemma_whole(1);
    assert(1 * pow2(1074) == pow2(1074));
    lemma_scaled_monotone(ratio(n, d).magnitude(), whole(1).magnitude());
}

/// The Hann and Hamming windows are as symmetric as the cosines that they are made of: two
/// points are no further apart than their cosines, but for 2^-50.
pub proof fn law_windows_are_nearly_symmetric(a: Double, b: Double)
    requires
        within_one(a),
        within_one(b),
    ensures
        hann(a).finite(),
        hann(b).finite(),
        apart(hann(a), hann(b)) <= apart(a, b) + pow2(1024),
        hamming(a).finite(),
        hamming(b).finite(),
        apart(hamming(a), hamming(b)) <= apart(a, b) + pow2(1024),
{
    lemma_ratio_within_one(1, 2);
    lemma_ratio_within_one(53836, 100000);
    lemma_ratio_within_one(46164, 100000);
    lemma_raised_cosines_are_close(ratio(1, 2), ratio(1, 2), a, b);
    lemma_raised_cosines_are_close(ratio(53836, 100000), ratio(46164, 100000), a, b);
}

/// Where point `i` of a Kaiser window with `n` points stands, from -1 to 1, but for 2^-51.
proof fn lemma_kaiser_place(i: int, n: int)
    requires
        2 <= n <= i32::MAX,
        0 <= i < n,
    ensures
        ({
            let x = difference(quotient(product(whole(2), whole(i)), whole(n - 1)), whole(1));
            let v = 2 * i * pow2(1074) - (n - 1) * pow2(1074);
            &&& within_one(x)
            &&& -(2 * pow2(1022) * (n - 1)) <= x.value() * (n - 1) - v <= 2 * pow2(1022) * (n - 1)
        }),
{
    let unit = pow2(1074) as int;
    let err = pow2(1022) as int;
    let m = n - 1;
    lemma_pow2_pos(1074);
    lemma_pow2_pos(1022);
    lemma_whole_product(2, i);
    lemma_whole(2 * i);
    lemma_whole(m);
    lemma_whole(1);
    assert(scaled(0) == 0);
    assert(m * unit > 0) by (nonlinear_arith)
        requires
            m >= 1,
            unit > 0,
    ;
    let num = ((2 * i) * unit) * unit;
    let den = m * unit;
    assert(0 <= num <= 2 * unit * den) by (nonlinear_arith)
        requires
            num == ((2 * i) * unit) * unit,
            den == m * unit,
            0 <= i <= m,
            unit > 0,
    ;
    lemma_rounding_moves_little(num as nat, den as nat);
    let q = quotient(whole(2 * i), whole(m));
    let w = scaled(q.magnitude()) as int;
    assert(q.magnitude() == nearest(num as nat, den as nat));
    assert(-(err * m) <= w * m - 2 * i * unit <= err * m) by (nonlinear_arith)
        requires
            -(err * den) <= w * den - num <= err * den,
            num == ((2 * i) * unit) * unit,
            den == m * unit,
            unit > 0,
    {
        assert(w * den - num == (w * m - 2 * i * unit) * unit) by (nonlinear_arith)
            requires
                num == ((2 * i) * unit) * unit,
                den == m * unit,
        ;
        assert(err * den == (err * m) * unit) by (nonlinear_arith)
            requires
                den == m * unit,
        ;
    }
    let one = whole(1);
    let x = difference(q, one);
    assert(1 * unit == unit);
    lemma_difference_is_close(q, one);
    assert(within_one(x)) by {
        let v = w - unit;
        let size = (if v < 0 {
            -v
        } else {
            v
        }) as nat;
        assert(q.value() + negated(one).value() == v);
        assert(scaled(one.magnitude()) * 1 == unit);
        lemma_nearest_at_most(size, 1, one.magnitude());
        lemma_scaled_monotone(nearest(size, 1), one.magnitude());
        assert(x.magnitude() == if v == 0 {
            0
        } else {
            nearest(size, 1)
        });
    }
    let xv = x.value();
    assert(-(2 * err * m) <= xv * m - (2 * i * unit - m * unit) <= 2 * err * m) by (nonlinear_arith)
        requires
            -err <= xv - (w - unit) <= err,
            -(err * m) <= w * m - 2 * i * unit <= err * m,
            m >= 1,
    {
        let d = xv - (w - unit);
        assert(-(err * m) <= d * m <= err * m) by (nonlinear_arith)
            requires
                -err <= d <= err,
                m >= 1,
        ;
        assert(xv * m == d * m + w * m - m * unit) by (nonlinear_arith)
            requires
                d == xv - (w - unit),
        ;
        assert(2 * err * m == 2 * (err * m)) by (nonlinear_arith);
    }
}

/// One without the square of a number within one, but for 2^-51.
proof fn lemma_square_is_close(x: Double)
    requires
        within_one(x),
    ensures
        ({
            let d = difference(whole(1), product(x, x));
            let unit = pow2(1074);
            &&& d.finite()
            &&& -(2 * pow2(1022) * unit) <= d.value() * unit - (unit * unit - x.value() * x.value())
                <= 2 * pow2(1022) * unit
        }),
{
    let unit = pow2(1074) as int;
    let err = pow2(1022) as int;
    lemma_pow2_pos(1074);
    lemma_whole(1);
    assert(1 * unit == unit);
    let a = absolute(x);
    assert(a.magnitude() == x.magnitude() && !a.negative());
    lemma_product_is_close(a, a);
    let p = product(x, x);
    assert(p == product(a, a));
    lemma_nearest_exists(scaled(a.magnitude()) * scaled(a.magnitude()), pow2(1074));
    assert(!p.negative());
    let (s, v) = (scaled(x.magnitude()) as int, x.value());
    assert(v * v == s * s) by (nonlinear_arith)
        requires
            v == s || v == -s,
    ;
    let one = whole(1);
    lemma_difference_is_close(one, p);
    let d = difference(one, p).value();
    let w = p.value();
    assert(-(2 * err * unit) <= d * unit - (unit * unit - v * v) <= 2 * err * unit)
        by (nonlinear_arith)
        requires
            -err <= d - (unit - w) <= err,
            -(err * unit) <= w * unit - v * v <= err * unit,
            unit > 0,
    {
        let g = d - (unit - w);
        assert(-(err * unit) <= g * unit <= err * unit) by (nonlinear_arith)
            requires
                -err <= g <= err,
                unit > 0,
        ;
        assert(d * unit == g * unit + unit * unit - w * unit) by (nonlinear_arith)
            requires
                g == d - (unit - w),
        ;
        assert(2 * err * unit == 2 * (err * unit)) by (nonlinear_arith);
    }
}

/// The Kaiser window takes the Bessel function of roots, and what these are taken of is
/// the same from either side but for 12 times 2^-52.
pub proof fn law_kaiser_radicands_are_nearly_symmetric(i: int, n: int)
    requires
        2 <= n <= i32::MAX,
        0 <= i < n,
    ensures
        kaiser_radicand(i, n).finite(),
        kaiser_radicand(n - 1 - i, n).finite(),
        apart(kaiser_radicand(i, n), kaiser_radicand(n - 1 - i, n)) <= 12 * pow2(1022),
{
    let unit = pow2(1074) as int;
    let err = pow2(1022) as int;
    let m = n - 1;
    let j = m - i;
    lemma_pow2_pos(1074);
    lemma_pow2_pos(1022);
    lemma_kaiser_place(i, n);
    lemma_kaiser_place(j, n);
    let x = difference(quotient(product(whole(2), whole(i)), whole(m)), whole(1));
    let y = difference(quotient(product(whole(2), whole(j)), whole(m)), whole(1));
    lemma_square_is_close(x);
    lemma_square_is_close(y);
    let (a, b) = (x.value(), y.value());
    // the two places are opposite
    assert(-(4 * err) <= a + b <= 4 * err) by (nonlinear_arith)
        requires
            -(2 * err * m) <= a * m - (2 * i * unit - m * unit) <= 2 * err * m,
            -(2 * err * m) <= b * m - (2 * j * unit - m * unit) <= 2 * err * m,
            j == m - i,
            m >= 1,
    {
        assert(2 * i * unit + 2 * j * unit == 2 * (m * unit)) by (nonlinear_arith)
            requires
                j == m - i,
        ;
        assert((a + b) * m == a * m + b * m) by (nonlinear_arith);
        assert(2 * err * m + 2 * err * m == (4 * err) * m) by (nonlinear_arith);
    }
    // so their squares are close
    assert(-(8 * err * unit) <= a * a - b * b <= 8 * err * unit) by (nonlinear_arith)
        requires
            -(4 * err) <= a + b <= 4 * err,
            -unit <= a <= unit,
            -unit <= b <= unit,
            err > 0,
            unit > 0,
    {
        let (s, d) = (a + b, a - b);
        assert(a * a - b * b == s * d) by (nonlinear_arith)
            requires
                s == a + b,
                d == a - b,
        ;
        assert(-((4 * err) * (2 * unit)) <= s * d <= (4 * err) * (2 * unit)) by (nonlinear_arith)
            requires
                -(4 * err) <= s <= 4 * err,
                -(2 * unit) <= d <= 2 * unit,
                err > 0,
                unit > 0,
        ;
        assert((4 * err) * (2 * unit) == 8 * err * unit) by (nonlinear_arith);
    }
    let (d, e) = (kaiser_radicand(i, n).value(), kaiser_radicand(j, n).value());
    assert(-(12 * err) <= d - e <= 12 * err) by (nonlinear_arith)
        requires
            -(2 * err * unit) <= d * unit - (unit * unit - a * a) <= 2 * err * unit,
            -(2 * err * unit) <= e * unit - (unit * unit - b * b) <= 2 * err * unit,
            -(8 * err * unit) <= a * a - b * b <= 8 * err * unit,
            unit > 0,
    {
        assert((d - e) * unit == d * unit - e * unit) by (nonlinear_arith);
        assert(2 * err * unit == 2 * (err * unit)) by (nonlinear_arith);
        assert(8 * err * unit == 8 * (err * unit)) by (nonlinear_arith);
        assert((12 * err) * unit == 12 * (err * unit)) by (nonlinear_arith);
    }
}

} // verus!
