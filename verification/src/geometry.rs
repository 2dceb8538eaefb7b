//! How sound is laid out on an image: the columns and the seconds they stand for,
//! the length of the transform, and the steps that it moves in.
use crate::arith::{difference, product, quotient, saturated, sum, whole, whole_part};
use crate::channel::{Geometry, MAX_DFT_SIZE};
use crate::config::{Config, ConfigView, MAX_X_SIZE};
use crate::convert::{floor_part, larger, smaller};
use crate::double::{scaled, Double};
use crate::root::root;
use crate::taper::{whole_density, Values, Window};
use crate::timeparse::{
    anchor_of, direction_of, error_text, half, parse_position, parse_samples, terms_at, total,
    StepView, TimeError,
};
use vstd::arithmetic::div_mod::{
    lemma_div_is_ordered, lemma_fundamental_div_mod, lemma_fundamental_div_mod_converse,
};
use vstd::arithmetic::power2::{lemma_pow2_pos, pow2};
use vstd::prelude::*;
use vstd::string::*;
use vstd::utf8::encode_utf8;

verus! {

/// The columns and their number for a second of sound.
#[derive(Clone, Copy, Debug, PartialEq, Eq, Structural)]
pub struct Scale {
    pub x_size: i32,
    pub pixels_per_sec: Double,
}

/// The columns that `seconds` of sound take at `pixels` for a second, of which an
/// image holds no more than [`MAX_X_SIZE`]; the nearest whole number.
pub open spec fn fitted(pixels: Double, seconds: Double) -> int {
    let wanted = sum(product(pixels, seconds), half());
    if wanted.nan() {
        MAX_X_SIZE as int
    } else {
        saturated(floor_part(wanted), i32::MIN as int, MAX_X_SIZE as int)
    }
}

/// The columns for a second that fit `seconds` of sound into `x_size` columns, no
/// more than 5000; 100 where that would be none.
pub open spec fn spread_over(x_size: int, seconds: Double) -> Double {
    let pixels = smaller(whole(5000), quotient(whole(x_size), seconds));
    if pixels.magnitude() == 0 {
        whole(100)
    } else {
        pixels
    }
}

/// The scale of the time axis, for sound that lasts `seconds`. A width and a
/// resolution that are given are kept, and what is not given follows from the
/// other; if neither is, the image is 800 wide.
pub open spec fn scaled_to(x_size: int, pixels: Double, seconds: Double) -> (int, Double) {
    let given = pixels.magnitude() != 0;
    if x_size != 0 {
        (
            x_size,
            if given {
                pixels
            } else {
                spread_over(x_size, seconds)
            },
        )
    } else if given {
        let x = fitted(pixels, seconds);
        (
            if x == 0 {
                800
            } else {
                x
            },
            pixels,
        )
    } else {
        (800, spread_over(800, seconds))
    }
}

/// The seconds that are left of the input from the start on, or one where none are.
pub open spec fn remaining(rate: Double, channels: int, total_len: int, start: Double) -> Double {
    let seconds = difference(
        quotient(whole(total_len), product(rate, whole(channels))),
        start,
    );
    if seconds.at_most(whole(0)) {
        whole(1)
    } else {
        seconds
    }
}

/// Finds the scale of the time axis.
pub fn solve_scale(x_size: i32, pixels: Double, seconds: Double) -> (r: Scale)
    ensures
        (r.x_size as int, r.pixels_per_sec) == scaled_to(x_size as int, pixels, seconds),
{
    let mut x: i32 = x_size;
    let mut p = pixels;
    if x == 0 && !p.is_zero() {
        let wanted = p.times(seconds).plus(Double::from_i64(1).over(Double::from_i64(2)));
        x = if wanted.is_nan() {
            MAX_X_SIZE
        } else {
            let n = wanted.floor_i32();
            if n > MAX_X_SIZE {
                MAX_X_SIZE
            } else {
                n
            }
        };
    }
    if x == 0 {
        x = 800;
    }
    if p.is_zero() {
        p = Double::from_i64(5000).min(Double::from_i64(x as i64).over(seconds));
        if p.is_zero() {
            p = Double::from_i64(100);
        }
    }
    Scale { x_size: x, pixels_per_sec: p }
}

/// The smallest size from `size` on, doubling, that is larger than `y`.
pub open spec fn doubled_past(size: int, y: int) -> int
    decreases 2 * y - size,
{
    if 0 < size <= y {
        doubled_past(2 * size, y)
    } else {
        size
    }
}

/// `a / b` without its fraction, for a positive `b`.
pub open spec fn cut_quotient(a: int, b: int) -> int {
    if a < 0 {
        -((-a) / b)
    } else {
        a / b
    }
}

/// The rows that a channel is to have at least, when the height of all is given.
pub open spec fn wanted_rows(c: ConfigView, channels: int) -> int {
    let all = if c.big_y_size != 0 {
        c.big_y_size
    } else {
        550
    };
    let y = cut_quotient(all, channels) - 2;
    if y < 32 {
        32
    } else {
        y
    }
}

/// The length of the transform.
pub open spec fn transform_size(c: ConfigView, channels: int) -> int {
    if c.y_size != 0 {
        2 * (c.y_size - 1)
    } else {
        doubled_past(128, wanted_rows(c, channels))
    }
}

/// The largest power of two that the length of a transform can be.
pub const LARGEST_POWER: i32 = 0x4000_0000;

/// Whether heights make a transform of at least two points that the counters can
/// take.
pub open spec fn sized(c: ConfigView, channels: int) -> bool {
    &&& 1 <= channels <= i32::MAX
    &&& if c.y_size != 0 {
        2 <= c.y_size <= 0x4000_0000
    } else {
        wanted_rows(c, channels) < LARGEST_POWER
    }
}

/// The length of the transform for `channels` channels.
pub fn dft_size(cfg: &Config, channels: u32) -> (n: i32)
    requires
        sized(cfg@, channels as int),
    ensures
        n == transform_size(cfg@, channels as int),
        2 <= n <= MAX_DFT_SIZE,
{
    if cfg.y_size != 0 {
        return 2 * (cfg.y_size - 1);
    }
    let all: i32 = if cfg.big_y_size != 0 {
        cfg.big_y_size
    } else {
        550
    };
    proof {
        let n = channels as int;
        let size = if all < 0 {
            -(all as int)
        } else {
            all as int
        };
        let q = size / n;
        let rem = size % n;
        lemma_fundamental_div_mod(size, n);
        assert(0 <= q <= size) by (nonlinear_arith)
            requires
                size == n * q + rem,
                0 <= rem < n,
                n >= 1,
                size >= 0,
        ;
    }
    // below zero there is less than the least
    let y: i32 = if all < 0 || all / (channels as i32) < 34 {
        32
    } else {
        all / channels as i32 - 2
    };
    let mut d: i32 = 128;
    while d <= y
        invariant
            128 <= d <= LARGEST_POWER,
            y < LARGEST_POWER,
            d == 128 || d <= 2 * y,
            d % 2 == 0,
            doubled_past(d as int, y as int) == doubled_past(128, y as int),
            sized_power(d),
        decreases LARGEST_POWER - d,
    {
        proof {
            lemma_sized_power(d);
        }
        d = d * 2;
    }
    d
}

/// Whether `d` goes into the largest size.
spec fn sized_power(d: i32) -> bool {
    ||| d == 0x80
    ||| d == 0x100
    ||| d == 0x200
    ||| d == 0x400
    ||| d == 0x800
    ||| d == 0x1000
    ||| d == 0x2000
    ||| d == 0x4000
    ||| d == 0x8000
    ||| d == 0x1_0000
    ||| d == 0x2_0000
    ||| d == 0x4_0000
    ||| d == 0x8_0000
    ||| d == 0x10_0000
    ||| d == 0x20_0000
    ||| d == 0x40_0000
    ||| d == 0x80_0000
    ||| d == 0x100_0000
    ||| d == 0x200_0000
    ||| d == 0x400_0000
    ||| d == 0x800_0000
    ||| d == 0x1000_0000
    ||| d == 0x2000_0000
    ||| d == 0x4000_0000
}

proof fn lemma_sized_power(d: i32)
    requires
        sized_power(d),
        d < LARGEST_POWER,
    ensures
        2 * d <= LARGEST_POWER,
        sized_power((2 * d) as i32),
{
}

/// The whole number nearest to `a / b`, the larger one of two.
pub open spec fn rounded_div(a: int, b: int) -> int {
    (2 * a + b) / (2 * b)
}

/// The smallest whole number that is not below `a / b`.
pub open spec fn raised_div(a: int, b: int) -> int {
    (a + b - 1) / b
}

/// The step that divides `span` samples of a column as evenly as whole steps of no
/// more than `step` can.
pub open spec fn even_step(span: int, step: int) -> int {
    rounded_div(span, raised_div(span, step))
}

/// The samples of a column.
pub open spec fn column_span(rate: Double, pixels: Double) -> int {
    saturated(
        whole_part(larger(quotient(rate, pixels), whole(1))),
        i32::MIN as int,
        i32::MAX as int,
    )
}

/// How far the window can move: its sum over a frame or, with slack overlap, the root of
/// the product of that and the length of the frame.
pub open spec fn reach(c: ConfigView, v: Values, dft_size: int) -> Double {
    let density = whole_density(c, v, dft_size);
    if c.slack_overlap {
        root(product(density, whole(dft_size)))
    } else {
        density
    }
}

/// The step that the window makes: the whole number nearest to how far it can move.
pub open spec fn step_of_window(c: ConfigView, v: Values, dft_size: int) -> int {
    saturated(whole_part(sum(reach(c, v, dft_size), half())), i32::MIN as int, i32::MAX as int)
}

/// The step that the window makes.
pub fn window_step(cfg: &Config, dft_size: i32, values: &Values) -> (step: i32)
    requires
        0 <= dft_size < i32::MAX,
        values.serve(cfg.win_type, (dft_size + 1) as nat),
    ensures
        step == step_of_window(cfg@, *values, dft_size as int),
{
    let density = Window::make(cfg, dft_size, 0, values).density;
    let far = if cfg.slack_overlap {
        density.times(Double::from_i64(dft_size as i64)).sqrt()
    } else {
        density
    };
    far.plus(Double::from_i64(1).over(Double::from_i64(2))).to_i32()
}

proof fn lemma_rounded_div(a: int, b: int)
    requires
        a >= 1,
        b >= 1,
    ensures
        b <= a ==> rounded_div(a, b) >= 1,
        forall|c: int| a <= #[trigger] (c * b) ==> rounded_div(a, b) <= c,
        rounded_div(a, b) <= a,
{
    let q = rounded_div(a, b);
    lemma_fundamental_div_mod(2 * a + b, 2 * b);
    assert(2 * b * q <= 2 * a + b < 2 * b * q + 2 * b);
    if b <= a {
        assert(q >= 1) by (nonlinear_arith)
            requires
                2 * a + b < 2 * b * q + 2 * b,
                b <= a,
                b >= 1,
        ;
    }
    assert forall|c: int| a <= #[trigger] (c * b) implies q <= c by {
        assert(q <= c) by (nonlinear_arith)
            requires
                2 * b * q <= 2 * a + b,
                a <= c * b,
                b >= 1,
        ;
    }
    assert(a <= a * b) by (nonlinear_arith)
        requires
            a >= 1,
            b >= 1,
    ;
}

/// A step and the steps of a column, from the samples of a column and the step that
/// the window allows.
pub fn even_steps(span: i32, step: i32) -> (r: (i32, i32))
    requires
        span >= 1,
        step >= 1,
    ensures
        r.0 == even_step(span as int, step as int),
        r.1 == rounded_div(span as int, r.0 as int),
        1 <= r.0 <= step,
        1 <= r.1,
{
    let s: i64 = span as i64;
    let n: i64 = (s + step as i64 - 1) / step as i64;
    proof {
        lemma_fundamental_div_mod(s + step - 1, step as int);
        let rem = (s + step - 1) % (step as int);
        assert(step * n >= s && n >= 1 && n <= s) by (nonlinear_arith)
            requires
                s + step - 1 == step * n + rem,
                0 <= rem < step,
                s >= 1,
                step >= 1,
        ;
        assert(step * n == n * step) by (nonlinear_arith);
        lemma_rounded_div(s as int, n as int);
        assert(s <= step * n);
    }
    let even: i64 = (2 * s + n) / (2 * n);
    proof {
        assert(even == rounded_div(s as int, n as int));
        assert(s <= s * n) by (nonlinear_arith)
            requires
                s >= 1,
                n >= 1,
        ;
        lemma_rounded_div(s as int, even as int);
    }
    let steps: i64 = (2 * s + even) / (2 * even);
    (even as i32, steps as i32)
}

/// A duration in words, read.
pub open spec fn duration_terms(text: Seq<char>) -> Result<Seq<StepView>, TimeError> {
    terms_at(encode_utf8(text), 0, false, 116)
}

/// A start in words, read: the place that it is counted from, and its terms.
pub open spec fn start_terms(text: Seq<char>, len: u64) -> (
    u64,
    Result<Seq<StepView>, TimeError>,
) {
    let b = encode_utf8(text);
    let (anchor, behind) = anchor_of(b, 61);
    let (minus, first) = direction_of(b, anchor, behind);
    (
        if anchor == 45 {
            len
        } else {
            0
        },
        terms_at(b, first, minus, 116),
    )
}

/// What is wrong with the duration or the start, if anything is.
pub open spec fn time_error(c: ConfigView, len: u64) -> Option<TimeError> {
    let late = match c.start_time_str {
        None => None,
        Some(t) => match start_terms(t, len).1 {
            Err(e) => Some(e),
            Ok(_) => None,
        },
    };
    match c.duration_str {
        None => late,
        Some(t) => match duration_terms(t) {
            Err(e) => Some(e),
            Ok(_) => late,
        },
    }
}

/// The seconds that the image is to show; none if not given.
pub open spec fn given_seconds(c: ConfigView, rate: Double) -> Double {
    match c.duration_str {
        None => whole(0),
        Some(t) => match duration_terms(t) {
            Err(_) => whole(0),
            Ok(steps) => quotient(whole(total(0, steps, rate, steps.len()) as int), rate),
        },
    }
}

/// The samples that are left out at the start.
pub open spec fn skipped(c: ConfigView, len: u64, rate: Double) -> u64 {
    match c.start_time_str {
        None => 0,
        Some(t) => {
            let (base, read) = start_terms(t, len);
            match read {
                Err(_) => 0,
                Ok(steps) => total(base, steps, rate, steps.len()),
            }
        },
    }
}

/// The seconds that are left out at the start.
pub open spec fn start_seconds(c: ConfigView, len: u64, rate: Double) -> Double {
    if c.start_time_str is None {
        whole(0)
    } else {
        quotient(whole(skipped(c, len, rate) as int), rate)
    }
}

/// The scale of the time axis of an input.
pub open spec fn scale_of(c: ConfigView, rate: Double, channels: int, total_len: u64) -> (
    int,
    Double,
) {
    let len = (total_len as int / channels) as u64;
    let given = given_seconds(c, rate);
    let seconds = if given.magnitude() == 0 {
        remaining(rate, channels, total_len as int, start_seconds(c, len, rate))
    } else {
        given
    };
    scaled_to(c.x_size0, c.pixels_per_sec, seconds)
}

/// Whether the window allows a step, and the step that divides a column of an input evenly
/// is no longer than a frame. An input with a time that cannot be read is not laid out.
pub open spec fn steps_within_frame(
    c: ConfigView,
    rate: Double,
    channels: int,
    total_len: u64,
    values: Values,
) -> bool {
    let size = transform_size(c, channels);
    let step = step_of_window(c, values, size);
    let span = column_span(rate, scale_of(c, rate, channels, total_len).1);
    time_error(c, (total_len as int / channels) as u64) is None ==> 1 <= step && even_step(
        span,
        step,
    ) <= size
}

/// Whether `g` is how an input is laid out; see [`compute_geometry`].
pub open spec fn is_laid_out(
    g: Geometry,
    c: ConfigView,
    rate: Double,
    channels: int,
    total_len: u64,
    values: Values,
) -> bool {
    let len = (total_len as int / channels) as u64;
    let (x_size, pixels) = scale_of(c, rate, channels, total_len);
    let span = column_span(rate, pixels);
    &&& g.well_formed()
    &&& g.dft_size == transform_size(c, channels)
    &&& g.x_size == x_size
    &&& g.step_size == even_step(span, step_of_window(c, values, transform_size(c, channels)))
    &&& g.block_steps == rounded_div(span, g.step_size as int)
    &&& g.skip == skipped(c, len, rate)
}

/// Reads the duration and the start, and works the scale of the time axis out. Returns it
/// and the samples that are left out.
pub fn time_scale(cfg: &Config, rate: Double, channels: u32, total_len: u64) -> (r: Result<
    (Scale, u64),
    String,
>)
    requires
        1 <= channels,
    ensures
        ({
            let len = (total_len as int / channels as int) as u64;
            match time_error(cfg@, len) {
                Some(e) => r matches Err(text) && text@ == error_text(e),
                None => r matches Ok(found) && (
                    found.0.x_size as int,
                    found.0.pixels_per_sec,
                ) == scale_of(cfg@, rate, channels as int, total_len) && found.1
                    == skipped(cfg@, len, rate),
            }
        }),
{
    let zero = Double::from_i64(0);
    let ghost len = (total_len as int / channels as int) as u64;
    let mut duration = zero;
    if let Some(text) = &cfg.duration_str {
        match parse_samples(rate, text.as_str(), 116) {
            Err(e) => return Err(e),
            Ok(n) => {
                duration = Double::from_u64(n).over(rate);
            },
        }
    }
    let mut start = zero;
    let mut skip: u64 = 0;
    if let Some(text) = &cfg.start_time_str {
        let in_length: u64 = total_len / channels as u64;
        match parse_position(rate, text.as_str(), 0, in_length, 61) {
            Err(e) => return Err(e),
            Ok(n) => {
                skip = n;
                start = Double::from_u64(skip).over(rate);
            },
        }
    }
    if duration.is_zero() {
        let seconds = Double::from_u64(total_len).over(
            rate.times(Double::from_i64(channels as i64)),
        ).minus(start);
        duration = if seconds.le(zero) {
            Double::from_i64(1)
        } else {
            seconds
        };
    }
    Ok((solve_scale(cfg.x_size0, cfg.pixels_per_sec, duration), skip))
}

/// The samples of a column.
pub fn span_of(rate: Double, pixels: Double) -> (span: i32)
    ensures
        span == column_span(rate, pixels),
        span >= 1,
{
    proof {
        lemma_at_least_one(quotient(rate, pixels));
    }
    rate.over(pixels).max(Double::from_i64(1)).to_i32()
}

/// Lays an input of `total_len` samples in all channels out on an image. `values` are
/// those of the whole window. Unless a time cannot be read, the window is to allow a step,
/// and the step that divides a column evenly is to be no longer than a frame.
pub fn compute_geometry(
    cfg: &Config,
    rate: Double,
    channels: u32,
    total_len: u64,
    values: &Values,
) -> (r: Result<Geometry, String>)
    requires
        sized(cfg@, channels as int),
        values.serve(cfg.win_type, (transform_size(cfg@, channels as int) + 1) as nat),
        steps_within_frame(cfg@, rate, channels as int, total_len, *values),
    ensures
        ({
            let len = (total_len as int / channels as int) as u64;
            match time_error(cfg@, len) {
                Some(e) => r matches Err(text) && text@ == error_text(e),
                None => r matches Ok(g) && is_laid_out(
                    g,
                    cfg@,
                    rate,
                    channels as int,
                    total_len,
                    *values,
                ),
            }
        }),
{
    let (scale, skip) = match time_scale(cfg, rate, channels, total_len) {
        Err(e) => return Err(e),
        Ok(found) => found,
    };
    let dft = dft_size(cfg, channels);
    let step = window_step(cfg, dft, values);
    let (step_size, block_steps) = even_steps(span_of(rate, scale.pixels_per_sec), step);
    Ok(
        Geometry {
            dft_size: dft,
            step_size,
            block_steps,
            rows: dft / 2 + 1,
            x_size: scale.x_size,
            skip,
        },
    )
}

/// The larger one of a number and one has a whole part.
proof fn lemma_at_least_one(a: Double)
    ensures
        whole_part(larger(a, whole(1))) >= 1,
{
    crate::convert::law_whole_numbers_are_exact(1);
    let one = whole(1);
    let r = larger(a, one);
    let unit = pow2(1074);
    lemma_pow2_pos(1074);
    assert(scaled(one.magnitude()) == unit);
    assert(!r.nan() && !r.negative() && one.magnitude() <= r.magnitude());
    if one.magnitude() < r.magnitude() {
        crate::double::lemma_scaled_increases(one.magnitude(), r.magnitude());
    }
    assert(scaled(r.magnitude()) >= unit);
    lemma_fundamental_div_mod_converse(unit as int, unit as int, 1, 0);
    lemma_div_is_ordered(unit as int, scaled(r.magnitude()) as int, unit as int);
}

} // verus!
