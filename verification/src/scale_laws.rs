//! What the scale of the time axis comes to in whole numbers.
use crate::arith::{difference, negated, product, quotient, sum, whole};
use crate::bounds::{
    and_half, lemma_half, lemma_nearest_at_least, lemma_nearest_exists, lemma_scaled_monotone,
    lemma_sum_at_least, lemma_sum_at_most, lemma_whole, lemma_whole_and_half,
    lemma_whole_difference, lemma_whole_part_between, lemma_whole_product, lemma_whole_quotient,
    lemma_whole_sum, plain,
};
use crate::channel::Geometry;
use crate::config::{ConfigView, MAX_X_SIZE};
use crate::crumbs::{crumb, lemma_one_in_crumbs, lemma_rounding_moves_a_crumb, lemma_sum_is_near};
use crate::double::{scaled, Double};
use crate::geometry::{
    column_span, doubled_past, duration_terms, even_step, fitted, given_seconds, is_laid_out,
    raised_div, reach, remaining, rounded_div, scale_of, scaled_to, skipped, spread_over,
    start_seconds, start_terms, step_of_window, time_error, transform_size, wanted_rows,
};
use crate::geometry_laws::law_steps_cover_a_column;
use crate::root::{law_roots_of_squares_are_exact, root};
use crate::taper::Values;
use crate::taper_laws::law_rectangular_windows_count_points;
use crate::time_laws::{
    all_digits, law_bare_number_counts_seconds, law_seconds_move_a_place, spelled,
};
use crate::timeparse::{half, is_digit, total, TimeError};
use vstd::arithmetic::div_mod::lemma_fundamental_div_mod;
use vstd::arithmetic::power2::{lemma_pow2_pos, lemma_pow2_unfold, pow2};
use vstd::prelude::*;
use vstd::utf8::encode_utf8;

verus! {

/// The seconds that are left: of `t` seconds of sound in `channels` channels of `rate`
/// samples a second, all but the `s` that are left out at the start. So the start and what
/// is left make the length together, and a later start leaves less. From the end on there
/// is one second.
pub proof fn law_the_start_and_the_rest_are_the_length(rate: int, channels: int, t: int, s: int)
    requires
        1 <= rate,
        1 <= channels,
        0 <= t,
        0 <= s <= 0x20_0000_0000_0000,
        rate * channels <= 0x20_0000_0000_0000,
        t * (rate * channels) <= 0x20_0000_0000_0000,
    ensures
        s < t ==> remaining(whole(rate), channels, t * (rate * channels), whole(s)) == whole(t - s),
        s < t ==> sum(
            whole(s),
            remaining(whole(rate), channels, t * (rate * channels), whole(s)),
        ) == whole(t),
        s >= t ==> remaining(whole(rate), channels, t * (rate * channels), whole(s)) == whole(1),
{
    let all = rate * channels;
    assert(rate <= all && channels <= all) by (nonlinear_arith)
        requires
            all == rate * channels,
            rate >= 1,
            channels >= 1,
    ;
    assert(t <= t * all) by (nonlinear_arith)
        requires
            t >= 0,
            all >= 1,
    ;
    lemma_whole_product(rate, channels);
    lemma_whole_quotient(t, all);
    lemma_whole(0);
    lemma_whole(t);
    lemma_whole(s);
    lemma_pow2_pos(1074);
    let unit = pow2(1074) as int;
    assert(0 * unit == 0);
    assert(scaled(0) == 0);
    let left = difference(whole(t), whole(s));
    if s < t {
        lemma_whole_difference(t, s);
        lemma_whole(t - s);
        assert((t - s) * unit > 0) by (nonlinear_arith)
            requires
                s < t,
                unit > 0,
        ;
        lemma_whole_sum(s, t - s);
        if whole(0).magnitude() > 0 {
            crate::double::lemma_scaled_increases(0, whole(0).magnitude());
        }
        assert(!left.at_most(whole(0)));
    } else {
        assert(negated(whole(s)).value() == -(s * unit));
        assert(t * unit - s * unit <= 0) by (nonlinear_arith)
            requires
                t <= s,
                unit > 0,
        ;
        lemma_nearest_exists((s * unit - t * unit) as nat, 1);
        assert(left.at_most(whole(0)));
    }
}

/// A magnitude of a whole number above zero is above zero.
proof fn lemma_above_zero(n: int)
    requires
        1 <= n <= 0x20_0000_0000_0000,
    ensures
        plain(whole(n)),
        whole(n).magnitude() > 0,
        !whole(n).nan(),
{
    lemma_whole(n);
    lemma_pow2_pos(1074);
    assert(n * pow2(1074) > 0) by (nonlinear_arith)
        requires
            n >= 1,
            pow2(1074) > 0,
    ;
    assert(scaled(0) == 0);
}

/// Whole numbers keep their order as doubles.
proof fn lemma_whole_order(a: int, b: int)
    requires
        0 <= a < b <= 0x20_0000_0000_0000,
    ensures
        whole(a).magnitude() < whole(b).magnitude(),
{
    lemma_whole(a);
    lemma_whole(b);
    lemma_pow2_pos(1074);
    let unit = pow2(1074);
    assert(a * unit < b * unit) by (nonlinear_arith)
        requires
            a < b,
            unit > 0,
    ;
    if whole(b).magnitude() <= whole(a).magnitude() {
        lemma_scaled_monotone(whole(b).magnitude(), whole(a).magnitude());
    }
}

/// The columns of whole seconds at a whole resolution, or the widest image.
proof fn lemma_fitted(p: int, t: int)
    requires
        1 <= p,
        1 <= t,
        p * t < 0x8_0000_0000_0000,
    ensures
        fitted(whole(p), whole(t)) == if p * t <= MAX_X_SIZE {
            p * t
        } else {
            MAX_X_SIZE as int
        },
{
    let n = p * t;
    assert(p <= n && t <= n) by (nonlinear_arith)
        requires
            n == p * t,
            p >= 1,
            t >= 1,
    ;
    lemma_whole_product(p, t);
    lemma_whole(n);
    lemma_half();
    lemma_whole_and_half(n);
    lemma_pow2_pos(1074);
    let unit = pow2(1074) as int;
    assert((2 * n + 1) * unit == 2 * (n * unit) + unit) by (nonlinear_arith);
    lemma_sum_at_most(whole(n), half(), and_half(n));
    lemma_sum_at_least(whole(n), half(), and_half(n));
    assert((n + 1) * unit == n * unit + unit) by (nonlinear_arith);
    lemma_whole_part_between(sum(whole(n), half()), n, n as nat);
}

/// Width, resolution and length agree: where one of width and resolution is given and the
/// other follows, columns are seconds times columns for a second. A width spreads over the
/// seconds, at most 5000 columns for one; a resolution takes as many columns as the seconds
/// ask for, at most the widest image; with neither the image is 800 wide; and both are kept
/// as they are given.
pub proof fn law_columns_are_seconds_times_resolution(x: int, p: int, t: int)
    requires
        1 <= p <= 5000,
        1 <= t <= 0x4_0000_0000,
        1 <= x <= i32::MAX,
    ensures
        scaled_to(x, whole(p), whole(t)) == (x, whole(p)),
        p * t <= i32::MAX ==> scaled_to(p * t, whole(0), whole(t)) == (p * t, whole(p)),
        p * t <= MAX_X_SIZE ==> scaled_to(0, whole(p), whole(t)) == (p * t, whole(p)),
        p * t > MAX_X_SIZE ==> scaled_to(0, whole(p), whole(t)) == (MAX_X_SIZE as int, whole(p)),
        p * t == 800 ==> scaled_to(0, whole(0), whole(t)) == (800int, whole(p)),
        x > 5000 * t ==> scaled_to(x, whole(0), whole(t)) == (x, whole(5000)),
{
    let n = p * t;
    assert(p <= n && t <= n && n <= 5000 * 0x4_0000_0000) by (nonlinear_arith)
        requires
            n == p * t,
            1 <= p <= 5000,
            1 <= t <= 0x4_0000_0000,
    ;
    lemma_above_zero(p);
    lemma_above_zero(5000);
    lemma_whole(0);
    lemma_zero();
    lemma_fitted(p, t);
    lemma_whole_quotient(p, t);
    if p < 5000 {
        lemma_whole_order(p, 5000);
    }
    if x > 5000 * t {
        lemma_spread_is_capped(x, t);
    }
}

/// Zero is written without a magnitude.
proof fn lemma_zero()
    ensures
        whole(0).magnitude() == 0,
        !whole(0).negative(),
{
    lemma_whole(0);
    assert(0 * pow2(1074) == 0);
    assert(scaled(0) == 0);
    if whole(0).magnitude() > 0 {
        crate::double::lemma_scaled_increases(0, whole(0).magnitude());
    }
}

/// A second never takes more than 5000 columns by itself.
proof fn lemma_spread_is_capped(x: int, t: int)
    requires
        1 <= t <= 0x4_0000_0000,
        5000 * t < x <= i32::MAX,
    ensures
        spread_over(x, whole(t)) == whole(5000),
{
    lemma_above_zero(5000);
    lemma_above_zero(t);
    lemma_above_zero(x);
    lemma_whole(x);
    lemma_whole(t);
    lemma_whole(5000);
    lemma_pow2_pos(1074);
    let unit = pow2(1074);
    let num = scaled(whole(x).magnitude()) * unit;
    let den = scaled(whole(t).magnitude());
    assert(den > 0) by (nonlinear_arith)
        requires
            den == t * unit,
            t >= 1,
            unit > 0,
    ;
    assert(scaled(whole(5000).magnitude()) * den <= num) by (nonlinear_arith)
        requires
            scaled(whole(5000).magnitude()) == 5000 * unit,
            den == t * unit,
            num == (x * unit) * unit,
            5000 * t <= x,
            unit > 0,
    ;
    lemma_nearest_at_least(num, den, whole(5000).magnitude());
}

/// The scale of an input whose start leaves `s` of its `t` whole seconds out goes by the
/// seconds that are left.
proof fn lemma_scale_of_the_rest(c: ConfigView, rate: int, channels: int, t: int, s: int, len: u64)
    requires
        1 <= rate,
        1 <= channels,
        0 <= s < t <= 0x4_0000_0000,
        rate * channels <= 0x20_0000_0000_0000,
        t * (rate * channels) <= 0x20_0000_0000_0000,
        len == t * (rate * channels),
        c.duration_str is None,
        c.start_time_str is None ==> s == 0,
        skipped(c, (len as int / channels) as u64, whole(rate)) == s * rate,
    ensures
        scale_of(c, whole(rate), channels, len) == scaled_to(
            c.x_size0,
            c.pixels_per_sec,
            whole(t - s),
        ),
{
    let all = rate * channels;
    assert(rate <= all && s * rate <= t * all) by (nonlinear_arith)
        requires
            all == rate * channels,
            rate >= 1,
            channels >= 1,
            0 <= s < t,
    ;
    law_the_start_and_the_rest_are_the_length(rate, channels, t, s);
    lemma_whole_quotient(s, rate);
    lemma_zero();
    let n = (len as int / channels) as u64;
    assert(start_seconds(c, n, whole(rate)) == whole(s));
    assert(given_seconds(c, whole(rate)) == whole(0));
}

/// The scale of an input whose start leaves `s` of its `t` whole seconds out: the seconds
/// that are left, spread over the width that is given, or over 800 columns, or shown at the
/// resolution that is given. A longer input with a start as much later has the same scale.
pub proof fn law_the_rest_is_spread_over_the_width(
    c: ConfigView,
    rate: int,
    channels: int,
    t: int,
    s: int,
    p: int,
)
    requires
        1 <= rate,
        1 <= channels,
        0 <= s < t <= 0x4_0000_0000,
        rate * channels <= 0x20_0000_0000_0000,
        0 <= t * (rate * channels) <= 0x20_0000_0000_0000,
        c.duration_str is None,
        c.start_time_str is None ==> s == 0,
        skipped(c, ((t * (rate * channels)) / channels) as u64, whole(rate)) == s * rate,
        1 <= p <= 5000,
    ensures
        ({
            let (columns, pixels) = scale_of(
                c,
                whole(rate),
                channels,
                (t * (rate * channels)) as u64,
            );
            let width = if c.x_size0 == 0 {
                800
            } else {
                c.x_size0
            };
            &&& c.pixels_per_sec == whole(0) && width == p * (t - s) && width <= i32::MAX
                ==> columns == width && pixels == whole(p)
            &&& c.pixels_per_sec == whole(p) && c.x_size0 == 0 && p * (t - s) <= MAX_X_SIZE
                ==> columns == p * (t - s) && pixels == whole(p)
        }),
{
    lemma_scale_of_the_rest(c, rate, channels, t, s, (t * (rate * channels)) as u64);
    assert(p * (t - s) >= 1) by (nonlinear_arith)
        requires
            p >= 1,
            t - s >= 1,
    ;
    law_columns_are_seconds_times_resolution(1, p, t - s);
}

/// The scale of an input of which a number of whole seconds is to be shown goes by those
/// seconds, however long the input is and wherever it starts.
pub proof fn law_a_duration_sets_the_scale(
    c: ConfigView,
    rate: Double,
    channels: int,
    len: u64,
    d: int,
    p: int,
)
    requires
        1 <= d <= 0x4_0000_0000,
        1 <= p <= 5000,
        given_seconds(c, rate) == whole(d),
    ensures
        c.pixels_per_sec == whole(0) && c.x_size0 == p * d && p * d <= i32::MAX ==> scale_of(
            c,
            rate,
            channels,
            len,
        ) == (p * d, whole(p)),
        c.pixels_per_sec == whole(0) && c.x_size0 == 0 && p * d == 800 ==> scale_of(
            c,
            rate,
            channels,
            len,
        ) == (800int, whole(p)),
        c.pixels_per_sec == whole(p) && c.x_size0 == 0 && p * d <= MAX_X_SIZE ==> scale_of(
            c,
            rate,
            channels,
            len,
        ) == (p * d, whole(p)),
{
    lemma_above_zero(d);
    assert(p * d >= 1) by (nonlinear_arith)
        requires
            p >= 1,
            d >= 1,
    ;
    law_columns_are_seconds_times_resolution(1, p, d);
}

/// The samples of a column are the rate over the columns for a second, and at least one.
pub proof fn law_columns_share_the_samples_of_a_second(n: int, p: int)
    requires
        1 <= p <= 0x20_0000_0000_0000,
        1 <= n <= i32::MAX,
        n * p <= 0x20_0000_0000_0000,
    ensures
        column_span(whole(n * p), whole(p)) == n,
{
    assert(n * p >= 1) by (nonlinear_arith)
        requires
            n >= 1,
            p >= 1,
    ;
    lemma_whole_quotient(n, p);
    lemma_above_zero(1);
    lemma_above_zero(n);
    if n > 1 {
        lemma_whole_order(1, n);
    }
    lemma_whole(n);
    lemma_pow2_pos(1074);
    let unit = pow2(1074) as int;
    assert((n + 1) * unit == n * unit + unit) by (nonlinear_arith);
    lemma_whole_part_between(whole(n), n, n as nat);
}

/// A duration of digits alone is that many seconds.
pub proof fn law_a_duration_is_its_seconds(c: ConfigView, text: Seq<char>, rate: int)
    requires
        c.duration_str == Some(text),
        all_digits(encode_utf8(text)),
        1 <= rate <= 0x20_0000_0000_0000,
        spelled(encode_utf8(text)) * rate <= 0x20_0000_0000_0000,
    ensures
        given_seconds(c, whole(rate)) == whole(spelled(encode_utf8(text))),
{
    let b = encode_utf8(text);
    let n = spelled(b);
    law_bare_number_counts_seconds(b, rate);
    assert(n <= n * rate) by (nonlinear_arith)
        requires
            0 <= n,
            1 <= rate,
    ;
    lemma_whole_quotient(n, rate);
}

/// A start of digits alone leaves that many seconds out, whatever the length; with an equals
/// sign or a plus sign before them it is the same; and with a minus sign it leaves all but
/// that many seconds out, or nothing of an input that is shorter.
pub proof fn law_a_start_is_counted_from_its_anchor(
    c: ConfigView,
    text: Seq<char>,
    len: u64,
    rate: int,
)
    requires
        c.start_time_str == Some(text),
        1 <= rate <= 0x20_0000_0000_0000,
    ensures
        ({
            let b = encode_utf8(text);
            let n = spelled(b.skip(1)) * rate;
            let anchored = b.len() > 1 && all_digits(b.skip(1)) && n <= 0x20_0000_0000_0000;
            let skip = skipped(c, len, whole(rate));
            &&& all_digits(b) && spelled(b) * rate <= 0x20_0000_0000_0000 ==> skip == spelled(b)
                * rate
            &&& anchored && (b[0] == '=' as u8 || b[0] == '+' as u8) ==> skip == n
            &&& anchored && b[0] == '-' as u8 && n <= len ==> skip == len - n
            &&& anchored && b[0] == '-' as u8 && n > len ==> skip == 0
        }),
{
    let b = encode_utf8(text);
    assert('=' as u8 == 61 && '-' as u8 == 45 && '+' as u8 == 43);
    if all_digits(b) && spelled(b) * rate <= 0x20_0000_0000_0000 {
        assert(is_digit(b[0]));
        law_bare_number_counts_seconds(b, rate);
    }
    if b.len() > 1 && all_digits(b.skip(1)) && spelled(b.skip(1)) * rate
        <= 0x20_0000_0000_0000 {
        let n = spelled(b.skip(1));
        assert(0 <= n * rate) by (nonlinear_arith)
            requires
                0 <= n,
                1 <= rate,
        ;
        assert(is_digit(b.skip(1)[0]));
        assert(b.skip(1)[0] == b[1]);
        law_seconds_move_a_place(b, 1, false, 0, rate);
        law_seconds_move_a_place(b, 1, true, len, rate);
    }
}

/// The rows that a height of all channels leaves to each: together with two more for each
/// they fill it as far as whole rows can, but there are never fewer than 32.
pub proof fn law_channels_share_the_height(c: ConfigView, channels: int)
    requires
        1 <= channels,
        c.big_y_size > 0,
    ensures
        wanted_rows(c, channels) >= 32,
        wanted_rows(c, channels) > 32 ==> channels * (wanted_rows(c, channels) + 2) <= c.big_y_size,
        c.big_y_size < channels * (wanted_rows(c, channels) + 3),
{
    let q = c.big_y_size / channels;
    let y = wanted_rows(c, channels);
    lemma_fundamental_div_mod(c.big_y_size, channels);
    assert(channels * q <= c.big_y_size < channels * (q + 1)) by (nonlinear_arith)
        requires
            c.big_y_size == channels * q + c.big_y_size % channels,
            0 <= c.big_y_size % channels < channels,
    ;
    assert(channels * (q + 1) <= channels * (y + 3)) by (nonlinear_arith)
        requires
            q - 2 <= y,
            channels >= 1,
    ;
}

/// A height of a channel is the rows of its transform. Without one the transform is the
/// shortest of 128 points and its doublings that has more points than the rows wanted, as
/// many as for a height of 550 where none is given.
pub proof fn law_transforms_are_long_enough(c: ConfigView, channels: int)
    requires
        1 <= channels,
    ensures
        c.y_size != 0 ==> transform_size(c, channels) / 2 + 1 == c.y_size,
        c.y_size == 0 ==> transform_size(c, channels) > wanted_rows(c, channels),
        c.y_size == 0 ==> transform_size(c, channels) == 128 || transform_size(c, channels) <= 2
            * wanted_rows(c, channels),
        c.y_size == 0 ==> exists|k: nat|
            transform_size(c, channels) == 128 * #[trigger] pow2(k),
        c.big_y_size == 0 ==> wanted_rows(c, channels) == wanted_rows(
            ConfigView { big_y_size: 550, ..c },
            channels,
        ),
{
    if c.y_size == 0 {
        vstd::arithmetic::power2::lemma2_to64();
        assert(128 * pow2(0) == 128);
        lemma_doubled(wanted_rows(c, channels), 0);
    }
}

proof fn lemma_doubled(y: int, k: nat)
    requires
        y >= 32,
        k > 0 ==> 128 * pow2(k) <= 2 * y,
    ensures
        ({
            let n = doubled_past(128 * pow2(k) as int, y);
            &&& n > y
            &&& n == 128 * pow2(k) || n <= 2 * y
            &&& exists|j: nat| n == 128 * #[trigger] pow2(j)
        }),
    decreases 2 * y - 128 * pow2(k),
{
    lemma_pow2_pos(k);
    lemma_pow2_unfold(k + 1);
    let size = 128 * pow2(k) as int;
    if size <= y {
        assert(2 * size == 128 * pow2(k + 1));
        lemma_doubled(y, k + 1);
    } else {
        assert(doubled_past(size, y) == 128 * pow2(k));
    }
}

/// The root of the square of a whole number is the number.
proof fn lemma_root_of_square(n: int)
    requires
        1 <= n <= 0x400_0000,
    ensures
        root(product(whole(n), whole(n))) == whole(n),
{
    assert(1 <= n * n <= 0x10_0000_0000_0000) by (nonlinear_arith)
        requires
            1 <= n <= 0x400_0000,
    ;
    lemma_whole_product(n, n);
    lemma_above_zero(n);
    lemma_whole(n);
    lemma_whole(n * n);
    let unit = pow2(1074) as int;
    let a = scaled(whole(n * n).magnitude()) as int;
    let r = scaled(whole(n).magnitude()) as int;
    assert(a * unit == r * r) by (nonlinear_arith)
        requires
            a == (n * n) * unit,
            r == n * unit,
    ;
    law_roots_of_squares_are_exact(whole(n * n), whole(n));
}

/// A rectangular window moves by its whole frame, with slack overlap or without.
pub proof fn law_rectangular_windows_do_not_overlap(c: ConfigView, v: Values, dft_size: int)
    requires
        c.win_type is Rectangular,
        1 <= dft_size < i32::MAX,
        c.slack_overlap ==> dft_size <= 0x400_0000,
    ensures
        step_of_window(c, v, dft_size) == dft_size,
{
    law_rectangular_windows_count_points(c, v, dft_size, 0, 0);
    let n = dft_size;
    lemma_above_zero(n);
    lemma_whole(n);
    lemma_pow2_pos(1074);
    let unit = pow2(1074) as int;
    assert(reach(c, v, n) == whole(n)) by {
        if c.slack_overlap {
            lemma_root_of_square(n);
        }
    }
    lemma_half();
    lemma_whole_and_half(n);
    assert((2 * n + 1) * unit == 2 * (n * unit) + unit) by (nonlinear_arith);
    lemma_sum_at_most(whole(n), half(), and_half(n));
    lemma_sum_at_least(whole(n), half(), and_half(n));
    assert((n + 1) * unit == n * unit + unit) by (nonlinear_arith);
    lemma_whole_part_between(sum(whole(n), half()), n, n as nat);
}

/// How an input is laid out: the transform and its rows, the columns, and the samples left
/// out are those that the options ask for, and the steps of a column cover the samples of a
/// column to within half a step, a step being no longer than the window allows.
pub proof fn law_layouts_are_what_is_asked_for(
    g: Geometry,
    c: ConfigView,
    rate: Double,
    channels: int,
    total_len: u64,
    v: Values,
)
    requires
        is_laid_out(g, c, rate, channels, total_len, v),
        1 <= column_span(rate, scale_of(c, rate, channels, total_len).1),
        1 <= step_of_window(c, v, transform_size(c, channels)),
    ensures
        g.dft_size == transform_size(c, channels),
        g.rows == transform_size(c, channels) / 2 + 1,
        g.x_size == scale_of(c, rate, channels, total_len).0,
        g.skip == skipped(c, (total_len as int / channels) as u64, rate),
        ({
            let span = column_span(rate, scale_of(c, rate, channels, total_len).1);
            -(g.step_size as int) <= 2 * (g.step_size * g.block_steps - span) <= g.step_size
        }),
        g.step_size <= step_of_window(c, v, transform_size(c, channels)),
{
    let span = column_span(rate, scale_of(c, rate, channels, total_len).1);
    let step = step_of_window(c, v, transform_size(c, channels));
    law_steps_cover_a_column(span, step);
    lemma_even_step_fits(span, step);
}

/// An even step is no longer than the one that it divides a column by.
proof fn lemma_even_step_fits(span: int, step: int)
    requires
        1 <= span,
        1 <= step,
    ensures
        even_step(span, step) <= step,
{
    let n = raised_div(span, step);
    lemma_fundamental_div_mod(span + step - 1, step);
    let rem = (span + step - 1) % step;
    assert(step * n >= span && n >= 1) by (nonlinear_arith)
        requires
            span + step - 1 == step * n + rem,
            0 <= rem < step,
            span >= 1,
            step >= 1,
    ;
    let e = rounded_div(span, n);
    lemma_fundamental_div_mod(2 * span + n, 2 * n);
    assert(e <= step) by (nonlinear_arith)
        requires
            2 * n * e <= 2 * span + n,
            step * n >= span,
            n >= 1,
    ;
}

/// Of a duration and a start that cannot be read, it is the duration that is complained of;
/// with neither there is nothing to complain of.
pub proof fn law_durations_are_read_first(c: ConfigView, text: Seq<char>, len: u64, e: TimeError)
    ensures
        c.duration_str == Some(text) && (duration_terms(text) matches Err(f) && f == e)
            ==> time_error(c, len) == Some(e),
        c.duration_str is None && c.start_time_str == Some(text) && (start_terms(text, len).1
            matches Err(f) && f == e) ==> time_error(c, len) == Some(e),
        c.duration_str is None && c.start_time_str is None ==> time_error(c, len) is None,
{
}

/// A number of samples over a rate, but for a crumb of a second.
proof fn lemma_seconds(n: int, rate: int)
    requires
        1 <= rate <= 0x20_0000_0000_0000,
        0 <= n <= 2000 * rate,
        n <= 0x20_0000_0000_0000,
    ensures
        plain(quotient(whole(n), whole(rate))),
        -(crumb() * rate) <= quotient(whole(n), whole(rate)).value() * rate - n * pow2(1074)
            <= crumb() * rate,
{
    lemma_whole(n);
    lemma_whole(rate);
    lemma_one_in_crumbs();
    let unit = pow2(1074) as int;
    let g = crumb() as int;
    let num = scaled(whole(n).magnitude()) * pow2(1074);
    let den = scaled(whole(rate).magnitude());
    assert(den > 0) by (nonlinear_arith)
        requires
            den == rate * unit,
            rate >= 1,
            unit > 0,
    ;
    assert(whole(rate).magnitude() > 0) by {
        assert(scaled(0) == 0);
    }
    assert(num < 0x10_0000_0000_0000 * (crumb() * den)) by (nonlinear_arith)
        requires
            num == (n * unit) * unit,
            den == rate * unit,
            unit == 0x100_0000_0000 * g,
            crumb() == g,
            0 <= n <= 2000 * rate,
            rate >= 1,
            unit > 0,
            g > 0,
    {
        assert((n * unit) * unit <= (2000 * rate * unit) * unit) by (nonlinear_arith)
            requires
                0 <= n <= 2000 * rate,
                unit > 0,
        ;
        assert((2000 * rate * unit) * unit == 0x7_D000_0000_0000 * (g * (rate * unit)))
            by (nonlinear_arith)
            requires
                unit == 0x100_0000_0000 * g,
        ;
        assert(g * (rate * unit) > 0) by (nonlinear_arith)
            requires
                g > 0,
                rate >= 1,
                unit > 0,
        ;
    }
    lemma_rounding_moves_a_crumb(num, den);
    let v = quotient(whole(n), whole(rate)).value();
    assert(-(g * rate) <= v * rate - n * unit <= g * rate) by (nonlinear_arith)
        requires
            -(g * den) <= v * den - num <= g * den,
            num == (n * unit) * unit,
            den == rate * unit,
            unit > 0,
    ;
}

/// What is left of an input of up to half an hour, whatever its length and the start: its
/// samples without those that are left out, at `rate` in `channels` channels, but for
/// 2^-38 of a second.
pub proof fn law_the_rest_is_what_the_start_leaves(rate: int, channels: int, total: int, skip: int)
    requires
        1 <= rate,
        1 <= channels,
        rate * channels <= 0x20_0000_0000_0000,
        0 <= skip,
        skip * channels < total <= 2000 * (rate * channels),
        total <= 0x20_0000_0000_0000,
        0x1_0000 * rate <= 0x20_0000_0000_0000,
        total - skip * channels >= channels,
    ensures
        ({
            let start = quotient(whole(skip), whole(rate));
            let left = remaining(whole(rate), channels, total, start);
            let all = rate * channels;
            &&& left.finite()
            &&& -(4 * (crumb() * all)) <= left.value() * all - (total - skip * channels) * pow2(
                1074,
            ) <= 4 * (crumb() * all)
        }),
{
    let unit = pow2(1074) as int;
    let g = crumb() as int;
    let all = rate * channels;
    lemma_one_in_crumbs();
    assert(rate <= all && channels <= all) by (nonlinear_arith)
        requires
            all == rate * channels,
            rate >= 1,
            channels >= 1,
    ;
    assert(skip <= 2000 * rate && skip <= total) by (nonlinear_arith)
        requires
            skip * channels < total,
            total <= 2000 * (rate * channels),
            channels >= 1,
            skip >= 0,
    ;
    lemma_whole_product(rate, channels);
    lemma_seconds(total, all);
    lemma_seconds(skip, rate);
    let end = quotient(whole(total), whole(all));
    let start = quotient(whole(skip), whole(rate));
    let (e, s) = (end.value(), start.value());
    assert(-(g * all) <= s * all - (skip * channels) * unit <= g * all) by (nonlinear_arith)
        requires
            -(g * rate) <= s * rate - skip * unit <= g * rate,
            all == rate * channels,
            channels >= 1,
    {
        let x = s * rate - skip * unit;
        assert(x * channels == s * all - (skip * channels) * unit) by (nonlinear_arith)
            requires
                x == s * rate - skip * unit,
                all == rate * channels,
        ;
        assert((g * rate) * channels == g * all) by (nonlinear_arith)
            requires
                all == rate * channels,
        ;
        let m = g * rate;
        assert(-(m * channels) <= x * channels <= m * channels) by (nonlinear_arith)
            requires
                -m <= x <= m,
                channels >= 1,
        ;
    }
    let n = total - skip * channels;
    let v = e - s;
    assert(-(2 * (g * all)) <= v * all - n * unit <= 2 * (g * all)) by {
        assert(v * all == e * all - s * all) by (nonlinear_arith)
            requires
                v == e - s,
        ;
        assert(n * unit == total * unit - (skip * channels) * unit) by (nonlinear_arith)
            requires
                n == total - skip * channels,
        ;
    }
    // a sample is much more than a crumb
    assert(v > g) by (nonlinear_arith)
        requires
            v * all >= n * unit - 2 * (g * all),
            n >= channels,
            all == rate * channels,
            unit == 0x100_0000_0000 * g,
            0x1_0000 * rate <= 0x20_0000_0000_0000,
            rate >= 1,
            channels >= 1,
            g > 0,
    {
        assert(n * unit >= channels * unit) by (nonlinear_arith)
            requires
                n >= channels,
                unit == 0x100_0000_0000 * g,
                g > 0,
        ;
        assert(channels * unit >= (8 * rate) * (channels * g)) by (nonlinear_arith)
            requires
                unit == 0x100_0000_0000 * g,
                8 * rate <= 0x100_0000_0000,
                channels >= 1,
                g > 0,
        ;
        assert((8 * rate) * (channels * g) == 8 * (g * all)) by (nonlinear_arith)
            requires
                all == rate * channels,
        ;
        assert(v * all >= 6 * (g * all));
        assert(6 * (g * all) == (6 * g) * all) by (nonlinear_arith);
        assert(all >= 1) by (nonlinear_arith)
            requires
                all == rate * channels,
                rate >= 1,
                channels >= 1,
        ;
        let w = 6 * g;
        assert(v >= w) by (nonlinear_arith)
            requires
                v * all >= w * all,
                all >= 1,
        ;
    }
    assert(v <= 2001 * unit) by (nonlinear_arith)
        requires
            v * all <= n * unit + 2 * (g * all),
            n <= 2000 * all,
            all >= 1,
            unit == 0x100_0000_0000 * g,
            g > 0,
    {
        assert(n * unit <= (2000 * unit) * all) by (nonlinear_arith)
            requires
                n <= 2000 * all,
                unit == 0x100_0000_0000 * g,
                g > 0,
        ;
        assert(2 * (g * all) <= unit * all) by (nonlinear_arith)
            requires
                unit == 0x100_0000_0000 * g,
                all >= 1,
                g > 0,
        ;
        let w = 2001 * unit;
        assert(w * all == (2000 * unit) * all + unit * all) by (nonlinear_arith)
            requires
                w == 2001 * unit,
        ;
        assert(v <= w) by (nonlinear_arith)
            requires
                v * all <= w * all,
                all >= 1,
        ;
    }
    assert(negated(start).value() == -s);
    lemma_sum_is_near(end, negated(start));
    let left = difference(end, start);
    assert(left.value() > 0);
    lemma_zero();
    assert(scaled(0) == 0);
    assert(!left.at_most(whole(0)));
    let l = left.value();
    assert(-(4 * (g * all)) <= l * all - n * unit <= 4 * (g * all)) by (nonlinear_arith)
        requires
            -g <= l - v <= g,
            -(2 * (g * all)) <= v * all - n * unit <= 2 * (g * all),
            all >= 1,
            g > 0,
    ;
}

/// A start or a duration that is read as a number of samples takes as many seconds as they
/// last, but for 2^-40 of a second.
pub proof fn law_times_are_their_samples_over_the_rate(
    c: ConfigView,
    text: Seq<char>,
    len: u64,
    rate: int,
)
    requires
        1 <= rate <= 0x20_0000_0000_0000,
    ensures
        c.start_time_str is Some && skipped(c, len, whole(rate)) <= 2000 * rate && skipped(
            c,
            len,
            whole(rate),
        ) <= 0x20_0000_0000_0000 ==> {
            let s = start_seconds(c, len, whole(rate));
            &&& plain(s)
            &&& -(crumb() * rate) <= s.value() * rate - skipped(c, len, whole(rate)) * pow2(1074)
                <= crumb() * rate
        },
        c.duration_str == Some(text) ==> (duration_terms(text) matches Ok(steps) ==> {
            let n = total(0, steps, whole(rate), steps.len());
            let s = given_seconds(c, whole(rate));
            n <= 2000 * rate && n <= 0x20_0000_0000_0000 ==> plain(s) && -(crumb() * rate)
                <= s.value() * rate - n * pow2(1074) <= crumb() * rate
        }),
{
    if c.start_time_str is Some {
        let n = skipped(c, len, whole(rate));
        if n <= 2000 * rate && n <= 0x20_0000_0000_0000 {
            lemma_seconds(n as int, rate);
        }
    }
    if c.duration_str == Some(text) {
        if let Ok(steps) = duration_terms(text) {
            let n = total(0, steps, whole(rate), steps.len());
            if n <= 2000 * rate && n <= 0x20_0000_0000_0000 {
                lemma_seconds(n as int, rate);
            }
        }
    }
}

} // verus!
