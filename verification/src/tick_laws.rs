//! Where the labels of the viewer stand.
use crate::arith::{difference, negated, product, quotient, sum, whole};
use crate::bounds::{
    lemma_exact_difference, lemma_exact_product, lemma_exact_quotient, lemma_half, lemma_whole,
    lemma_whole_and_half, lemma_whole_difference, lemma_whole_part_between, lemma_whole_product,
    lemma_whole_quotient, lemma_whole_sum, plain,
};
use crate::convert::larger;
use crate::crumbs::{crumb, lemma_one_in_crumbs, lemma_rounding_moves_a_crumb};
use crate::double::{scaled, Double};
use crate::ticks::{band_height, freq_label, held, level_label, room_for, run, time_label};
use crate::timeparse::half;
use crate::window::ratio;
use vstd::arithmetic::power2::{lemma_pow2_pos, pow2};
use vstd::prelude::*;

verus! {

/// Whole numbers compare as doubles as they do as numbers.
pub proof fn lemma_order(a: int, b: int)
    requires
        0 <= a <= 0x20_0000_0000_0000,
        0 <= b <= 0x20_0000_0000_0000,
    ensures
        !whole(a).nan(),
        whole(a).less(whole(b)) <==> a < b,
        whole(a).at_most(whole(b)) <==> a <= b,
        larger(whole(a), whole(b)) == whole(
            if a > b {
                a
            } else {
                b
            },
        ),
{
    lemma_whole(a);
    lemma_whole(b);
    lemma_pow2_pos(1074);
    let unit = pow2(1074) as int;
    crate::double::law_order_is_value_order(whole(a), whole(b));
    crate::double::law_order_is_value_order(whole(b), whole(a));
    assert(a * unit < b * unit <==> a < b) by (nonlinear_arith)
        requires
            unit > 0,
    ;
    assert(b * unit < a * unit <==> b < a) by (nonlinear_arith)
        requires
            unit > 0,
    ;
}

/// A whole number held between two others, the first of which may be too small to be taken
/// away from.
proof fn lemma_held(v: int, lo: int, hi: int)
    requires
        0 <= v <= 0x20_0000_0000_0000,
        0 <= lo <= hi <= 0x20_0000_0000_0000,
    ensures
        held(whole(v), whole(lo), whole(hi)) == whole(
            if v < lo {
                lo
            } else if hi < v {
                hi
            } else {
                v
            },
        ),
{
    lemma_order(v, lo);
    lemma_order(hi, v);
}

/// What is taken off a smaller number is below zero.
proof fn lemma_below(a: int, b: int, lo: int)
    requires
        0 <= a < b <= 0x1_0000_0000,
        0 <= lo <= 0x1_0000_0000,
    ensures
        difference(whole(a), whole(b)).less(whole(lo)),
{
    lemma_whole(a);
    lemma_whole(b);
    lemma_whole(lo);
    lemma_whole(b - a);
    lemma_pow2_pos(1074);
    let unit = pow2(1074) as int;
    let s = scaled(whole(b - a).magnitude());
    assert(b * unit - a * unit == (b - a) * unit) by (nonlinear_arith);
    assert((b - a) * unit > 0) by (nonlinear_arith)
        requires
            a < b,
            unit > 0,
    ;
    assert(negated(whole(b)).value() == -(b * unit));
    assert(s * 1 == s);
    crate::rounding::lemma_exact_is_nearest(whole(b - a).magnitude(), s, 1);
    assert(scaled(0) == 0);
}

/// Channels and the gaps of eight pixels between them fill the height.
pub proof fn law_channels_and_gaps_fill_the_height(n: int, h: int)
    requires
        1 <= n <= 0x1_0000,
        1 <= h <= 0x1_0000,
    ensures
        band_height(n, whole(n * h + 8 * (n - 1))) == whole(h),
{
    let all = n * h + 8 * (n - 1);
    assert(0 <= n * h <= 0x1_0000_0000) by (nonlinear_arith)
        requires
            1 <= n <= 0x1_0000,
            1 <= h <= 0x1_0000,
    ;
    lemma_whole_difference(n, 1);
    lemma_whole_product(n - 1, 8);
    lemma_whole_difference(all, (n - 1) * 8);
    assert(n * h == h * n) by (nonlinear_arith);
    lemma_whole_quotient(h, n);
    lemma_order(h, 1);
}

/// The label of the highest frequency stands at the top of its channel, that of zero at the
/// bottom, and that of the middle in the middle, seven pixels up. Channels are their height
/// and eight pixels apart.
pub proof fn law_frequencies_go_up_their_channel(f: int, a: int, k: int)
    requires
        1 <= f <= 0x4000_0000,
        14 <= a <= 0x1_0000,
        0 <= k <= 0x1_0000,
    ensures
        freq_label(whole(2 * f), whole(2 * a), k, whole(2 * f)).top == whole(k * (2 * a + 8)),
        freq_label(whole(2 * f), whole(2 * a), k, whole(0)).top == whole(
            k * (2 * a + 8) + 2 * a - 14,
        ),
        freq_label(whole(2 * f), whole(2 * a), k, whole(f)).top == whole(k * (2 * a + 8) + a - 7),
{
    let h = 2 * a;
    let t = k * (h + 8);
    assert(0 <= t <= 0x3_0000_0000) by (nonlinear_arith)
        requires
            t == k * (h + 8),
            0 <= k <= 0x1_0000,
            28 <= h <= 0x2_0000,
    ;
    lemma_whole_sum(h, 8);
    lemma_whole_product(k, h + 8);
    // the bounds
    lemma_whole_sum(t, h);
    lemma_whole_difference(t + h, 14);
    lemma_order(t + h - 14, t);
    // the highest frequency
    assert(1 * (2 * f) == 2 * f && 0 * (2 * f) == 0);
    lemma_whole_quotient(1, 2 * f);
    lemma_whole_difference(1, 1);
    lemma_whole_product(0, h);
    lemma_whole_sum(t, 0);
    lemma_top(t, h);
    // zero
    lemma_whole_quotient(0, 2 * f);
    lemma_whole_difference(1, 0);
    lemma_whole_product(1, h);
    lemma_whole_difference(t + h, 7);
    lemma_held(t + h - 7, t, t + h - 14);
    // the middle
    lemma_half_of_whole(f);
    lemma_half_left();
    lemma_half_times(a);
    lemma_whole_sum(t, a);
    lemma_whole_difference(t + a, 7);
    lemma_held(t + a - 7, t, t + h - 14);
}

/// What would stand above a channel is held at its top.
proof fn lemma_top(t: int, h: int)
    requires
        0 <= t <= 0x3_0000_0000,
        14 <= h <= 0x2_0000,
    ensures
        held(difference(whole(t), whole(7)), whole(t), whole(t + h - 14)) == whole(t),
{
    if t >= 7 {
        lemma_whole_difference(t, 7);
        lemma_held(t - 7, t, t + h - 14);
    } else {
        lemma_below(t, 7, t);
    }
}

/// A number over twice itself is a half.
proof fn lemma_half_of_whole(f: int)
    requires
        1 <= f <= 0x4000_0000,
    ensures
        quotient(whole(f), whole(2 * f)) == half(),
{
    lemma_whole(f);
    lemma_whole(2 * f);
    lemma_half();
    lemma_pow2_pos(1074);
    let unit = pow2(1074) as int;
    let (a, b) = (scaled(whole(f).magnitude()) as int, scaled(whole(2 * f).magnitude()) as int);
    let h = scaled(half().magnitude()) as int;
    assert(a * unit == h * b) by (nonlinear_arith)
        requires
            a == f * unit,
            b == 2 * f * unit,
            2 * h == unit,
    ;
    assert(b > 0) by (nonlinear_arith)
        requires
            b == 2 * f * unit,
            f >= 1,
            unit > 0,
    ;
    assert(scaled(0) == 0);
    lemma_exact_quotient(whole(f), whole(2 * f), half());
}

/// One without a half is a half.
proof fn lemma_half_left()
    ensures
        difference(whole(1), half()) == half(),
{
    lemma_whole(1);
    lemma_half();
    assert(1 * pow2(1074) == pow2(1074));
    lemma_exact_difference(whole(1), half(), half());
}

/// Half of an even number.
proof fn lemma_half_times(a: int)
    requires
        0 <= a <= 0x1_0000_0000,
    ensures
        product(half(), whole(2 * a)) == whole(a),
{
    lemma_whole(a);
    lemma_whole(2 * a);
    lemma_half();
    let unit = pow2(1074) as int;
    let (x, y) = (scaled(whole(a).magnitude()) as int, scaled(whole(2 * a).magnitude()) as int);
    let h = scaled(half().magnitude()) as int;
    assert(h * y == x * unit) by (nonlinear_arith)
        requires
            x == a * unit,
            y == 2 * a * unit,
            2 * h == unit,
    ;
    lemma_exact_product(half(), whole(2 * a), whole(a));
}

/// A millionth is a number above zero and below a half.
pub proof fn lemma_millionth()
    ensures
        plain(ratio(1, 1_000_000)),
        0 < scaled(ratio(1, 1_000_000).magnitude()),
        1000 * scaled(ratio(1, 1_000_000).magnitude()) < pow2(1074),
{
    lemma_one_in_crumbs();
    let unit = pow2(1074);
    let g = crumb();
    lemma_whole(1);
    lemma_whole(1_000_000);
    let num = scaled(whole(1).magnitude()) * unit;
    let den = scaled(whole(1_000_000).magnitude());
    assert(1 * unit == unit);
    assert(num == 0x100_0000_0000 * (g * unit)) by (nonlinear_arith)
        requires
            num == unit * unit,
            unit == 0x100_0000_0000 * g,
    ;
    assert(g * den == 1_000_000 * (g * unit)) by (nonlinear_arith)
        requires
            den == 1_000_000 * unit,
    ;
    assert(g * unit > 0) by (nonlinear_arith)
        requires
            g > 0,
            unit > 0,
    ;
    lemma_rounding_moves_a_crumb(num, den);
    let v = scaled(ratio(1, 1_000_000).magnitude()) as int;
    assert(scaled(0) == 0);
    assert(whole(1_000_000).magnitude() > 0);
    let gi = g as int;
    let ui = unit as int;
    lemma_regroup(1_000_000, v, ui);
    lemma_regroup(1_000_000, gi, ui);
    lemma_regroup(0x8_0000, gi, ui);
    lemma_regroup(0x20_0000, gi, ui);
    let low = 0x8_0000 * gi;
    let high = 0x20_0000 * gi;
    assert(low * ui <= v * ui <= high * ui);
    assert(low <= v <= high) by (nonlinear_arith)
        requires
            low * ui <= v * ui <= high * ui,
            ui > 0,
    ;
}

proof fn lemma_regroup(c: int, a: int, b: int)
    ensures
        a * (c * b) == c * (a * b),
        (c * a) * b == c * (a * b),
{
    assert(a * (c * b) == c * (a * b)) by (nonlinear_arith);
    assert((c * a) * b == c * (a * b)) by (nonlinear_arith);
}

/// The label of the start of the time axis begins at its left edge, that of its end ends at
/// its right edge, and that of the middle stands around the middle of its pixels.
pub proof fn law_times_go_along_their_axis(t: int, a: int)
    requires
        1 <= t <= 0x4000_0000,
        48 <= a <= 0x1_0000,
    ensures
        ({
            let l = time_label(whole(2 * t), whole(2 * a), whole(0));
            l.left == whole(0) && l.align is Start
        }),
        ({
            let l = time_label(whole(2 * t), whole(2 * a), whole(2 * t));
            l.left == whole(2 * a - 48) && l.align is End
        }),
        ({
            let l = time_label(whole(2 * t), whole(2 * a), whole(t));
            l.left == whole(a - 24) && l.align is Center
        }),
{
    let tiny = ratio(1, 1_000_000);
    let one = whole(1);
    let unit = pow2(1074) as int;
    lemma_millionth();
    lemma_pow2_pos(1074);
    lemma_whole(0);
    lemma_whole(1);
    lemma_half();
    assert(0 * unit == 0 && 1 * unit == unit);
    assert(1 * (2 * t) == 2 * t && 0 * (2 * t) == 0);
    lemma_whole_quotient(0, 2 * t);
    lemma_whole_quotient(1, 2 * t);
    lemma_half_of_whole(t);
    lemma_held(0, 0, 1);
    lemma_held(1, 0, 1);
    lemma_whole_difference(2 * a, 48);
    lemma_order(2 * a - 48, 0);
    // the start
    crate::double::law_order_is_value_order(whole(0), tiny);
    // the end
    crate::double::law_order_is_value_order(one, tiny);
    lemma_just_below_one(tiny);
    // the middle
    crate::double::law_order_is_value_order(half(), tiny);
    crate::double::law_order_is_value_order(half(), whole(0));
    crate::double::law_order_is_value_order(one, half());
    lemma_half_times(a);
    lemma_whole_quotient(24, 2);
    lemma_whole_difference(a, 24);
    lemma_held(a - 24, 0, 2 * a - 48);
    assert(held(half(), whole(0), one) == half());
}

/// One without a millionth is above a half and not above one.
proof fn lemma_just_below_one(tiny: Double)
    requires
        plain(tiny),
        0 < scaled(tiny.magnitude()),
        1000 * scaled(tiny.magnitude()) < pow2(1074),
    ensures
        difference(whole(1), tiny).at_most(whole(1)),
        !difference(whole(1), tiny).at_most(half()),
{
    let one = whole(1);
    let unit = pow2(1074) as int;
    let s = scaled(tiny.magnitude()) as int;
    lemma_whole(1);
    lemma_half();
    lemma_whole_and_half(0);
    assert(1 * unit == unit);
    assert(negated(tiny).value() == -s);
    let v = (unit - s) as nat;
    assert(scaled(one.magnitude()) * 1 == unit);
    crate::bounds::lemma_nearest_at_most(v, 1, one.magnitude());
    let r = difference(one, tiny);
    // three quarters lie between
    let part = crate::bounds::lemma_double_of(3, 1072);
    vstd::arithmetic::power2::lemma_pow2_unfold(1074);
    vstd::arithmetic::power2::lemma_pow2_unfold(1073);
    assert(scaled(part) * 1 == 3 * pow2(1072));
    crate::bounds::lemma_nearest_at_least(v, 1, part);
    crate::bounds::lemma_scaled_monotone(part, r.magnitude());
    crate::double::law_order_is_value_order(r, half());
    crate::double::law_order_is_value_order(r, one);
    crate::bounds::lemma_scaled_monotone(r.magnitude(), one.magnitude());
}

/// The label of the top of the scale of colours stands at its top, that of the bottom at its
/// bottom, and that of the middle in the middle, seven pixels up.
pub proof fn law_levels_go_down_their_scale(d: int, a: int)
    requires
        1 <= d <= 0x4000_0000,
        14 <= a <= 0x1_0000,
    ensures
        level_label(whole(2 * d), whole(2 * a), whole(0)).top == whole(0),
        level_label(whole(2 * d), whole(2 * a), whole(2 * d)).top == whole(2 * a - 14),
        level_label(whole(2 * d), whole(2 * a), whole(d)).top == whole(a - 7),
{
    assert(1 * (2 * d) == 2 * d && 0 * (2 * d) == 0);
    lemma_whole_quotient(0, 2 * d);
    lemma_whole_quotient(1, 2 * d);
    lemma_half_of_whole(d);
    lemma_whole_difference(2 * a, 14);
    lemma_order(2 * a - 14, 0);
    // the top
    lemma_whole_product(0, 2 * a);
    lemma_below(0, 7, 0);
    // the bottom
    lemma_whole_product(1, 2 * a);
    lemma_whole_difference(2 * a, 7);
    lemma_held(2 * a - 7, 0, 2 * a - 14);
    // the middle
    lemma_half_times(a);
    lemma_whole_difference(a, 7);
    lemma_held(a - 7, 0, 2 * a - 14);
}

/// Steps that are whole numbers, from a whole number on, up to a little more than another.
proof fn lemma_run(from: int, step: int, to: int, end: Double)
    requires
        0 <= from <= 0x1000_0000_0000,
        1 <= step <= i32::MAX,
        0 <= to <= i32::MAX,
        plain(end),
        to * pow2(1074) <= scaled(end.magnitude()) < (to + 1) * pow2(1074),
    ensures
        ({
            let r = run(whole(from), whole(step), end, false);
            &&& from > to ==> r.len() == 0
            &&& from <= to ==> r.len() == (to - from) / step + 1
            &&& forall|i: int| 0 <= i < r.len() ==> #[trigger] r[i] == whole(from + i * step)
        }),
    decreases if from <= to { to - from + 1 } else { 0 },
{
    let unit = pow2(1074) as int;
    lemma_pow2_pos(1074);
    lemma_whole(from);
    crate::double::law_order_is_value_order(whole(from), end);
    lemma_whole_sum(from, step);
    lemma_order(from, from + step);
    let r = run(whole(from), whole(step), end, false);
    if from > to {
        assert(from * unit >= (to + 1) * unit) by (nonlinear_arith)
            requires
                from >= to + 1,
                unit > 0,
        ;
        assert(r =~= Seq::empty());
    } else {
        assert(from * unit <= to * unit) by (nonlinear_arith)
            requires
                from <= to,
                unit > 0,
        ;
        lemma_run(from + step, step, to, end);
        let rest = run(whole(from + step), whole(step), end, false);
        assert(r == seq![whole(from)] + rest);
        if from + step <= to {
            vstd::arithmetic::div_mod::lemma_div_plus_one(to - from - step, step);
        } else {
            vstd::arithmetic::div_mod::lemma_fundamental_div_mod_converse(
                to - from,
                step,
                0,
                to - from,
            );
        }
        assert forall|i: int| 0 <= i < r.len() implies #[trigger] r[i] == whole(
            from + i * step,
        ) by {
            if i > 0 {
                assert(r[i] == rest[i - 1]);
                assert(from + step + (i - 1) * step == from + i * step) by (nonlinear_arith);
            } else {
                assert(0 * step == 0);
            }
        }
    }
}

/// The levels that are labelled at the scale of colours: every twentieth decibel of its
/// range, from its top on.
pub proof fn law_every_twentieth_decibel_is_labelled(range: int, i: int)
    requires
        0 <= range <= i32::MAX,
        0 <= i <= range / 20,
    ensures
        ({
            let r = run(whole(0), whole(20), sum(whole(range), ratio(1, 1_000_000)), false);
            r.len() == range / 20 + 1 && r[i] == whole(20 * i)
        }),
{
    let unit = pow2(1074) as int;
    lemma_pow2_pos(1074);
    let tiny = ratio(1, 1_000_000);
    lemma_millionth();
    lemma_whole(range);
    lemma_whole_and_half(range);
    let end = sum(whole(range), tiny);
    assert((2 * range + 1) * unit == 2 * (range * unit) + unit) by (nonlinear_arith);
    assert((range + 1) * unit == range * unit + unit) by (nonlinear_arith);
    crate::bounds::lemma_sum_at_most(whole(range), tiny, crate::bounds::and_half(range));
    crate::bounds::lemma_sum_at_least(whole(range), tiny, whole(range));
    crate::bounds::lemma_scaled_monotone(
        end.magnitude(),
        crate::bounds::and_half(range).magnitude(),
    );
    crate::bounds::lemma_scaled_monotone(whole(range).magnitude(), end.magnitude());
    lemma_run(0, 20, range, end);
    assert(0 + i * 20 == 20 * i);
}

/// A length has room for one tick in so many pixels, from two to twelve.
pub proof fn law_ticks_have_their_room(n: int, pixels: int)
    requires
        0 <= n <= 0x1_0000,
        1 <= pixels <= 0x1_0000,
    ensures
        2 <= n <= 12 ==> room_for(whole(n * pixels), pixels) == n,
        n < 2 ==> room_for(whole(n * pixels), pixels) == 2,
        n > 12 ==> room_for(whole(n * pixels), pixels) == 12,
{
    assert(0 <= n * pixels <= 0x1_0000_0000) by (nonlinear_arith)
        requires
            0 <= n <= 0x1_0000,
            1 <= pixels <= 0x1_0000,
    ;
    lemma_whole_quotient(n, pixels);
    lemma_whole(n);
    lemma_pow2_pos(1074);
    let unit = pow2(1074) as int;
    assert((n + 1) * unit == n * unit + unit) by (nonlinear_arith);
    lemma_whole_part_between(whole(n), n, n as nat);
}

} // verus!
