//! What the axes and the scale of colours stand for.
use crate::arith::{difference, negated, product, quotient, sum, whole, whole_part};
use crate::axis::{axis_of, prefix_text, AxisValues};
use crate::bounds::{
    and_half, lemma_exact_difference, lemma_exact_product, lemma_exact_quotient, lemma_exact_sum,
    lemma_half, lemma_sum_at_least, lemma_sum_at_most, lemma_whole, lemma_whole_and_half,
    lemma_whole_difference, lemma_whole_part_between, lemma_whole_product, lemma_whole_quotient,
    plain,
};
use crate::config::ConfigView;
use crate::crumbs::{crumb, lemma_one_in_crumbs, lemma_rounding_moves_a_crumb};
use crate::double::{scaled, Double};
use crate::legend::{scale_level, scale_number, seconds_of, tick_place};
use crate::palette::{colour_step, FIXED_PALETTE};
use crate::render::{autogain, frequency_axis, level_colour, time_axis};
use crate::spectrogram::SpectrogramView;
use crate::taper_laws::{lemma_times_one, lemma_times_zero};
use crate::timeparse::half;
use vstd::arithmetic::power2::{lemma_pow2_pos, pow2};
use vstd::prelude::*;

verus! {

/// The samples of the columns are counted exactly.
proof fn lemma_samples(cols: int, step_size: int, block_steps: int)
    requires
        0 <= cols <= i32::MAX,
        0 <= step_size <= i32::MAX,
        0 <= block_steps <= i32::MAX,
        cols * step_size <= 0x20_0000_0000_0000,
        cols * step_size * block_steps <= 0x20_0000_0000_0000,
    ensures
        product(product(whole(cols), whole(step_size)), whole(block_steps)) == whole(
            cols * step_size * block_steps,
        ),
        0 <= cols * step_size * block_steps,
{
    assert(0 <= cols * step_size) by (nonlinear_arith)
        requires
            0 <= cols,
            0 <= step_size,
    ;
    assert(0 <= cols * step_size * block_steps) by (nonlinear_arith)
        requires
            0 <= cols * step_size,
            0 <= block_steps,
    ;
    lemma_whole_product(cols, step_size);
    lemma_whole_product(cols * step_size, block_steps);
}

/// The time axis ends with the samples that its columns stand for: with `t` seconds of sound
/// in the blocks of its columns, `rate` samples a second, it ends at `t`. So the end times the
/// rate is the columns times the steps of a column times the samples of a step, and twice as
/// many of any of them take twice as long.
pub proof fn law_the_time_axis_ends_with_its_samples(
    cols: int,
    step_size: int,
    block_steps: int,
    rate: int,
    t: int,
)
    requires
        0 <= cols <= i32::MAX,
        0 <= step_size <= i32::MAX,
        0 <= block_steps <= i32::MAX,
        1 <= rate <= 0x20_0000_0000_0000,
        0 <= t,
        cols * step_size <= 0x20_0000_0000_0000,
        cols * step_size * block_steps == t * rate,
        t * rate <= 0x20_0000_0000_0000,
    ensures
        seconds_of(cols, step_size, block_steps, whole(rate)) == whole(t),
        product(seconds_of(cols, step_size, block_steps, whole(rate)), whole(rate)) == whole(
            cols * step_size * block_steps,
        ),
        2 * cols <= i32::MAX && 2 * (cols * step_size) <= 0x20_0000_0000_0000 && 2 * (t * rate)
            <= 0x20_0000_0000_0000 ==> seconds_of(
            2 * cols,
            step_size,
            block_steps,
            whole(rate),
        ) == whole(2 * t),
        2 * step_size <= i32::MAX && 2 * (cols * step_size) <= 0x20_0000_0000_0000 && 2 * (t * rate)
            <= 0x20_0000_0000_0000 ==> seconds_of(
            cols,
            2 * step_size,
            block_steps,
            whole(rate),
        ) == whole(2 * t),
        2 * block_steps <= i32::MAX && 2 * (t * rate) <= 0x20_0000_0000_0000 ==> seconds_of(
            cols,
            step_size,
            2 * block_steps,
            whole(rate),
        ) == whole(2 * t),
{
    let n = cols * step_size * block_steps;
    assert(t <= t * rate) by (nonlinear_arith)
        requires
            t >= 0,
            rate >= 1,
    ;
    lemma_samples(cols, step_size, block_steps);
    lemma_whole_quotient(t, rate);
    lemma_whole_product(t, rate);
    if 2 * (t * rate) <= 0x20_0000_0000_0000 {
        assert((2 * t) * rate == 2 * (t * rate)) by (nonlinear_arith);
        assert(2 * t <= 2 * (t * rate));
        lemma_whole_quotient(2 * t, rate);
        assert((2 * cols) * step_size * block_steps == 2 * n) by (nonlinear_arith)
            requires
                n == cols * step_size * block_steps,
        ;
        assert(cols * (2 * step_size) * block_steps == 2 * n) by (nonlinear_arith)
            requires
                n == cols * step_size * block_steps,
        ;
        assert(cols * step_size * (2 * block_steps) == 2 * n) by (nonlinear_arith)
            requires
                n == cols * step_size * block_steps,
        ;
        assert((2 * cols) * step_size == 2 * (cols * step_size)) by (nonlinear_arith);
        assert(cols * (2 * step_size) == 2 * (cols * step_size)) by (nonlinear_arith);
        if 2 * (cols * step_size) <= 0x20_0000_0000_0000 {
            if 2 * cols <= i32::MAX {
                lemma_samples(2 * cols, step_size, block_steps);
            }
            if 2 * step_size <= i32::MAX {
                lemma_samples(cols, 2 * step_size, block_steps);
            }
        }
        if 2 * block_steps <= i32::MAX {
            lemma_samples(cols, step_size, 2 * block_steps);
        }
    }
}

/// The end of a time axis of up to half an hour, times the rate, is the number of samples
/// that its columns stand for, but for 2^-40 of a second.
pub proof fn law_the_time_axis_is_close_to_its_samples(
    cols: int,
    step_size: int,
    block_steps: int,
    rate: int,
)
    requires
        0 <= cols <= i32::MAX,
        0 <= step_size <= i32::MAX,
        0 <= block_steps <= i32::MAX,
        1 <= rate <= 0x100_0000_0000,
        cols * step_size <= 0x20_0000_0000_0000,
        cols * step_size * block_steps <= 2048 * rate,
    ensures
        plain(seconds_of(cols, step_size, block_steps, whole(rate))),
        -(crumb() * rate) <= seconds_of(cols, step_size, block_steps, whole(rate)).value() * rate
            - cols * step_size * block_steps * pow2(1074) <= crumb() * rate,
{
    let n = cols * step_size * block_steps;
    lemma_samples(cols, step_size, block_steps);
    lemma_whole(n);
    lemma_whole(rate);
    lemma_one_in_crumbs();
    lemma_pow2_pos(1074);
    let unit = pow2(1074) as int;
    let g = crumb() as int;
    let num = scaled(whole(n).magnitude()) * pow2(1074);
    let den = scaled(whole(rate).magnitude());
    assert(den > 0) by (nonlinear_arith)
        requires
            den == rate * unit,
            rate >= 1,
            unit > 0,
    ;
    assert(whole(rate).magnitude() > 0) by {
        assert(scaled(0) == 0);
    }
    assert(num < 0x10_0000_0000_0000 * (crumb() * den)) by (nonlinear_arith)
        requires
            num == (n * unit) * unit,
            den == rate * unit,
            unit == 0x100_0000_0000 * g,
            crumb() == g,
            0 <= n <= 2048 * rate,
            rate >= 1,
            unit > 0,
            g > 0,
    {
        assert((n * unit) * unit <= (2048 * rate * unit) * unit) by (nonlinear_arith)
            requires
                0 <= n <= 2048 * rate,
                unit > 0,
        ;
        assert((2048 * rate * unit) * unit == 0x8_0000_0000_0000 * (g * (rate * unit)))
            by (nonlinear_arith)
            requires
                unit == 0x100_0000_0000 * g,
        ;
        assert(g * (rate * unit) > 0) by (nonlinear_arith)
            requires
                g > 0,
                rate >= 1,
                unit > 0,
        ;
    }
    lemma_rounding_moves_a_crumb(num, den);
    let v = seconds_of(cols, step_size, block_steps, whole(rate)).value();
    assert(-(g * rate) <= v * rate - n * unit <= g * rate) by (nonlinear_arith)
        requires
            -(g * den) <= v * den - num <= g * den,
            num == (n * unit) * unit,
            den == rate * unit,
            unit > 0,
    ;
}

/// The axes of a picture go to the last of its samples, with room for a tick in 27 columns,
/// and to half the rate, with room for a tick in 18 rows.
pub proof fn law_axes_go_to_their_ends(s: SpectrogramView, v: AxisValues, r: int, t: int)
    requires
        s.rate == whole(2 * r),
        1 <= r <= 0x8_0000_0000_0000,
        0 <= t,
        0 <= s.cols <= i32::MAX,
        0 <= s.step_size <= i32::MAX,
        0 <= s.block_steps <= i32::MAX,
        s.cols * s.step_size <= 0x20_0000_0000_0000,
        t * (2 * r) <= 0x20_0000_0000_0000,
    ensures
        frequency_axis(s, v) == axis_of(whole(r), (s.rows - 1) / 18, v),
        s.cols * s.step_size * s.block_steps == t * (2 * r) ==> time_axis(s, v) == axis_of(
            whole(t),
            s.cols / 27,
            v,
        ),
{
    lemma_whole_quotient(r, 2);
    if s.cols * s.step_size * s.block_steps == t * (2 * r) {
        law_the_time_axis_ends_with_its_samples(s.cols, s.step_size, s.block_steps, 2 * r, t);
    }
}

/// The last tick of an axis of whole numbers stands at its end and the first at its start.
pub proof fn law_an_axis_goes_from_end_to_end(limit: int, n: int)
    requires
        1 <= limit <= i32::MAX,
        0 <= n < i32::MAX,
    ensures
        tick_place(0, whole(limit), n) == 0,
        tick_place(limit, whole(limit), n) == n,
{
    lemma_whole_quotient(0, limit);
    assert(1 * limit == limit);
    lemma_whole_quotient(1, limit);
    lemma_whole_product(0, n);
    lemma_whole_product(1, n);
    lemma_place(0);
    lemma_place(n);
    lemma_whole(limit);
    lemma_pow2_pos(1074);
    assert(limit * pow2(1074) > 0) by (nonlinear_arith)
        requires
            limit >= 1,
            pow2(1074) > 0,
    ;
    assert(scaled(0) == 0);
}

/// A whole number, and a half more without its fraction, is the number.
pub proof fn lemma_place(n: int)
    requires
        0 <= n <= i32::MAX,
    ensures
        whole_part(sum(whole(n), half())) == n,
{
    lemma_whole(n);
    lemma_half();
    lemma_whole_and_half(n);
    lemma_pow2_pos(1074);
    let unit = pow2(1074) as int;
    assert((2 * n + 1) * unit == 2 * (n * unit) + unit) by (nonlinear_arith);
    lemma_sum_at_most(whole(n), half(), and_half(n));
    lemma_sum_at_least(whole(n), half(), and_half(n));
    assert((n + 1) * unit == n * unit + unit) by (nonlinear_arith);
    lemma_whole_part_between(sum(whole(n), half()), n, n as nat);
}

/// The top of the scale of colours stands for zero and has the last colour; the bottom stands
/// for the whole range below it.
pub proof fn law_the_scale_covers_the_range(c: ConfigView, rows: int)
    requires
        2 <= rows <= i32::MAX,
        0 <= c.db_range <= i32::MAX,
    ensures
        scale_level(c, rows - 1, rows) == whole(0),
        colour_step(c, scale_level(c, rows - 1, rows)) == c.spectrum_points - 1,
        scale_level(c, 0, rows) == negated(whole(c.db_range)),
{
    let m = rows - 1;
    assert(1 * m == m && 0 * m == 0);
    lemma_whole_quotient(1, m);
    lemma_whole_quotient(0, m);
    lemma_whole_difference(1, 1);
    lemma_whole(c.db_range);
    lemma_times_zero(whole(c.db_range));
    lemma_zero();
    lemma_whole(0);
    lemma_whole(1);
    lemma_pow2_pos(1074);
    let unit = pow2(1074);
    assert(1 * unit == unit);
    assert(0 * unit == 0);
    let one = whole(1);
    // one below zero
    assert(negated(one).value() == -(unit as int));
    crate::rounding::lemma_exact_is_nearest(one.magnitude(), unit, 1);
    assert(difference(whole(0), one) == negated(one));
    lemma_times_one(whole(c.db_range));
    assert(product(whole(c.db_range), negated(one)).magnitude() == product(
        whole(c.db_range),
        one,
    ).magnitude());
    lemma_negative_bottom(c.db_range);
}

/// Nothing below the bottom, and what is zero is not below it.
proof fn lemma_negative_bottom(r: int)
    requires
        0 <= r <= i32::MAX,
    ensures
        !whole(0).less(negated(whole(r))),
        whole(0).at_most(whole(0)),
        negated(whole(r)).negative(),
        negated(whole(r)).magnitude() == whole(r).magnitude(),
{
    lemma_whole(r);
    lemma_zero();
}

/// Zero is written without a magnitude or a sign.
proof fn lemma_zero()
    ensures
        whole(0) == (Double { bits: 0 }),
        !whole(0).nan(),
{
    lemma_whole(0);
    assert(0 * pow2(1074) == 0);
    assert(scaled(0) == 0);
    if whole(0).magnitude() > 0 {
        crate::double::lemma_scaled_increases(0, whole(0).magnitude());
    }
}

/// A level half way down the range has the colour half way up the scale.
pub proof fn law_the_middle_has_the_middle_colour(c: ConfigView, d: int)
    requires
        1 <= d <= 0x3FFF_FFFF,
        c.db_range == 2 * d,
        2 <= c.spectrum_points <= 252,
    ensures
        colour_step(c, negated(whole(d))) == 1 + (c.spectrum_points - 2) / 2,
{
    let n = c.spectrum_points - 2;
    let x = negated(whole(d));
    let unit = pow2(1074) as int;
    lemma_pow2_pos(1074);
    lemma_zero();
    lemma_whole(d);
    lemma_whole(2 * d);
    lemma_whole(1);
    lemma_whole(n);
    lemma_half();
    assert(1 * unit == unit);
    assert(scaled(0) == 0);
    let dv = scaled(whole(d).magnitude()) as int;
    let rv = scaled(whole(2 * d).magnitude()) as int;
    let hv = scaled(half().magnitude()) as int;
    assert(0 < dv < rv && rv == 2 * dv) by (nonlinear_arith)
        requires
            dv == d * unit,
            rv == 2 * d * unit,
            d >= 1,
            unit > 0,
    ;
    // the level over the range is a half, below zero
    assert(dv * unit == hv * rv) by (nonlinear_arith)
        requires
            rv == 2 * dv,
            2 * hv == unit,
    ;
    lemma_exact_quotient(whole(d), whole(2 * d), half());
    let q = quotient(x, whole(2 * d));
    assert(q == negated(half()));
    lemma_exact_difference(whole(1), half(), half());
    assert(sum(whole(1), q) == half());
    lemma_half_of_points(n);
    lemma_below_zero(d);
    lemma_not_below(d, 2 * d);
}

/// A number below zero is not at least zero.
proof fn lemma_below_zero(d: int)
    requires
        1 <= d <= i32::MAX,
    ensures
        !whole(0).at_most(negated(whole(d))),
{
    lemma_whole(d);
    lemma_zero();
    lemma_pow2_pos(1074);
    assert(d * pow2(1074) > 0) by (nonlinear_arith)
        requires
            d >= 1,
            pow2(1074) > 0,
    ;
    assert(scaled(0) == 0);
}

/// Below zero the smaller number is the higher one.
proof fn lemma_not_below(a: int, b: int)
    requires
        0 <= a <= b <= i32::MAX,
    ensures
        !negated(whole(a)).less(negated(whole(b))),
{
    lemma_whole(a);
    lemma_whole(b);
    let unit = pow2(1074);
    lemma_pow2_pos(1074);
    assert(a * unit <= b * unit) by (nonlinear_arith)
        requires
            a <= b,
    ;
    if whole(b).magnitude() < whole(a).magnitude() {
        crate::double::lemma_scaled_increases(whole(b).magnitude(), whole(a).magnitude());
    }
}

/// One and half of a whole number, without a fraction.
proof fn lemma_half_of_points(n: int)
    requires
        0 <= n <= 250,
    ensures
        whole_part(sum(whole(1), product(half(), whole(n)))) == 1 + n / 2,
{
    let unit = pow2(1074) as int;
    lemma_pow2_pos(1074);
    lemma_whole(n);
    lemma_whole(1);
    lemma_half();
    crate::window_laws::lemma_half_of(n);
    crate::window_laws::lemma_half_of(n + 2);
    let part = quotient(whole(n), whole(2));
    let all = quotient(whole(n + 2), whole(2));
    let nv = scaled(whole(n).magnitude()) as int;
    let hv = scaled(half().magnitude()) as int;
    let pv = scaled(part.magnitude()) as int;
    let av = scaled(all.magnitude()) as int;
    assert(pv * unit == hv * nv) by (nonlinear_arith)
        requires
            2 * pv == n * unit,
            nv == n * unit,
            2 * hv == unit,
    ;
    lemma_exact_product(half(), whole(n), part);
    assert(1 * unit == unit);
    assert((n + 2) * unit == n * unit + 2 * unit) by (nonlinear_arith);
    lemma_exact_sum(whole(1), part, all);
    let k = 1 + n / 2;
    assert(k * unit <= av < (k + 1) * unit) by (nonlinear_arith)
        requires
            2 * av == (n + 2) * unit,
            2 * k <= n + 2 < 2 * k + 2,
            unit > 0,
    ;
    lemma_whole_part_between(all, k, k as nat);
}

/// With normalisation the largest level has the last colour, whatever it is; without it a
/// level has the colour of its own value.
pub proof fn law_normalisation_lifts_the_largest_level(
    s: SpectrogramView,
    k: int,
    col: int,
    row: int,
)
    requires
        0 <= s.cfg.db_range <= i32::MAX,
    ensures
        s.cfg.normalize && s.max.finite() ==> sum(s.max, autogain(s)) == whole(0),
        s.cfg.normalize && s.max.finite() && crate::convert::widened(
            s.dbfs[k][col * s.rows + row],
        ) == s.max ==> level_colour(s, k, col, row) == ((FIXED_PALETTE + s.cfg.spectrum_points - 1)
            % 256) as u8,
        !s.cfg.normalize ==> autogain(s) == whole(0),
{
    lemma_zero();
    lemma_negative_bottom(s.cfg.db_range);
    if s.max.finite() {
        assert(s.max.value() + negated(s.max).value() == 0);
    }
}

/// The numbers at the scale of colours go up by one with a decibel, and the top one is the
/// loudest level that is asked for, less what normalisation adds.
pub proof fn law_the_scale_is_numbered_in_decibels(c: ConfigView, gain: int, i: int)
    requires
        0 <= gain <= i32::MAX,
    ensures
        scale_number(c, whole(gain), c.db_range) == -c.gain - gain,
        scale_number(c, whole(gain), i + 1) == scale_number(c, whole(gain), i) + 1,
{
    lemma_place(gain);
}

/// The power of ten that a letter before a unit stands for.
pub open spec fn power_of_letter(c: char) -> int {
    match c {
        'p' => -12,
        'n' => -9,
        'u' => -6,
        'm' => -3,
        'k' => 3,
        'M' => 6,
        'G' => 9,
        'T' => 12,
        'P' => 15,
        'E' => 18,
        _ => 0,
    }
}

/// The letter before the unit of an axis stands for as many thousands as it is scaled by, from
/// 10^-12 to 10^18; beyond that, and where there is nothing to scale, there is none.
pub proof fn law_prefixes_stand_for_their_thousands(n: int)
    ensures
        -4 <= n <= 6 && n != 0 ==> prefix_text(n).len() == 1 && power_of_letter(prefix_text(n)[0])
            == 3 * n,
        n < -4 || n == 0 || n > 6 ==> prefix_text(n).len() == 0,
{
    reveal_strlit("p");
    reveal_strlit("n");
    reveal_strlit("u");
    reveal_strlit("m");
    reveal_strlit("k");
    reveal_strlit("M");
    reveal_strlit("G");
    reveal_strlit("T");
    reveal_strlit("P");
    reveal_strlit("E");
    reveal_strlit("");
}

/// An axis is counted in tenths of its unit where it has room for ticks.
pub proof fn law_axes_end_in_tenths(t: int, n: int, v: AxisValues)
    requires
        0 <= t <= 0x1_0000_0000_0000,
        v.scale == whole(1),
    ensures
        n != 0 ==> axis_of(whole(t), n, v).limit == whole(10 * t),
        n == 0 ==> axis_of(whole(t), n, v).limit == whole(t),
        n == 0 ==> axis_of(whole(t), n, v).prefix.len() == 0,
{
    lemma_whole_product(t, 10);
    lemma_whole_product(10 * t, 1);
    lemma_whole_product(t, 1);
    law_prefixes_stand_for_their_thousands(0);
}

} // verus!
