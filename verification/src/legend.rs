//! What stands around the levels: title, comment, axes and the scale of colours.
use crate::arith::{difference, product, quotient, saturated, sum, whole, whole_part};
use crate::axis::{Axis, AxisView};
use crate::bounds::{
    and_half, lemma_half, lemma_nearest_at_most, lemma_part_at_most, lemma_sum_at_most, lemma_whole,
    lemma_whole_and_half, lemma_whole_part_between, plain,
};
use crate::canvas::{
    letter, letter_up, lettered, lettered_up, line_right, line_up, lined_right, lined_up, shows,
};
use crate::config::{Config, ConfigView};
use crate::convert::ceiled;
use crate::double::{lemma_scaled_increases, scaled, Double};
use crate::general::{fmt_g, tick_text};
use crate::image::Image;
use crate::palette::{colour, colour_of, LABELS, TEXT};
use crate::render::{band_rows, drawable, BELOW, LEFT, RIGHT, SPECTRUM_WIDTH};
use crate::spectrogram::{Spectrogram, SpectrogramView};
use crate::text::{first_char, pad_left, plus_decimal, plus_digits, spaces};
use crate::timeparse::half;
use crate::window::fraction;
use vstd::arithmetic::power2::{lemma_pow2_pos, pow2};
use vstd::prelude::*;
use vstd::string::*;
use vstd::utf8::encode_utf8;

verus! {

/// Half of a whole number, without a fraction.
pub open spec fn halved(n: int) -> int {
    if n < 0 {
        -((-n) / 2)
    } else {
        n / 2
    }
}

fn half_of(n: i128) -> (h: i128)
    requires
        n > i128::MIN,
    ensures
        h == halved(n as int),
{
    if n < 0 {
        -((-n) / 2)
    } else {
        n / 2
    }
}

/// The columns of a text.
pub open spec fn text_cols(text: Seq<char>) -> int {
    6 * encode_utf8(text).len() as int
}

fn columns_of(text: &str) -> (n: i128)
    ensures
        n == text_cols(text@),
        0 <= n <= 0x1_0000_0000_0000_0000_0000,
{
    let len: usize = text.as_bytes().len();
    len as i128 * 6
}

/// A picture with a title at the top, if it fits.
pub open spec fn titled(
    p: spec_fn(int, int) -> u8,
    font: Seq<u8>,
    title: Option<Seq<char>>,
    cols: int,
    rows: int,
) -> spec_fn(int, int) -> u8 {
    match title {
        Some(t) => if text_cols(t) < cols + 1 {
            lettered(p, font, halved(cols - text_cols(t)), rows - 12, TEXT, t)
        } else {
            p
        },
        None => p,
    }
}

/// A picture with a comment at the bottom, if it fits.
pub open spec fn commented(
    p: spec_fn(int, int) -> u8,
    font: Seq<u8>,
    comment: Seq<char>,
    cols: int,
) -> spec_fn(int, int) -> u8 {
    if text_cols(comment) < cols + 1 {
        lettered(p, font, 1, 12, TEXT, comment)
    } else {
        p
    }
}

/// Where tick `i` of an axis that ends at `limit` stands on `n` pixels.
pub open spec fn tick_place(i: int, limit: Double, n: int) -> int {
    if limit.magnitude() == 0 {
        0
    } else {
        saturated(
            whole_part(sum(product(quotient(whole(i), limit), whole(n)), half())),
            i32::MIN as int,
            i32::MAX as int,
        )
    }
}

fn place_of(i: i64, limit: Double, n: i32) -> (at: i32)
    ensures
        at == tick_place(i as int, limit, n as int),
{
    if limit.is_zero() {
        0
    } else {
        Double::from_i64(i).over(limit).times(Double::from_i64(n as i64)).plus(
            fraction(1, 2),
        ).to_i32()
    }
}

/// Every tick of an axis stands on it.
pub proof fn law_ticks_are_on_the_axis(i: int, limit: Double, n: int)
    requires
        0 <= i <= i32::MAX,
        whole(i).at_most(limit),
        0 <= n <= i32::MAX,
    ensures
        0 <= tick_place(i, limit, n) <= n,
{
    lemma_whole(i);
    lemma_whole(1);
    let unit = pow2(1074) as int;
    lemma_pow2_pos(1074);
    if limit.magnitude() != 0 {
        if limit.negative() {
            // the limit would be below zero
            assert(false);
        }
        let q = quotient(whole(i), limit);
        assert(plain(q) && q.magnitude() <= whole(1).magnitude()) by {
            assert(scaled(0) == 0);
            if limit.magnitude() < crate::double::INFINITE {
                let s = scaled(whole(i).magnitude()) as int;
                let d = scaled(limit.magnitude()) as int;
                if whole(i).magnitude() < limit.magnitude() {
                    lemma_scaled_increases(whole(i).magnitude(), limit.magnitude());
                }
                lemma_scaled_increases(0, limit.magnitude());
                assert(s * unit <= unit * d) by (nonlinear_arith)
                    requires
                        s <= d,
                        unit > 0,
                ;
                assert(1 * unit == unit);
                lemma_nearest_at_most((s * unit) as nat, d as nat, whole(1).magnitude());
            } else if whole(1).magnitude() == 0 {
                assert(1 * unit == unit);
            }
        }
        lemma_part_at_most(q, n);
        let p = product(q, whole(n));
        let top = and_half(n);
        lemma_whole(n);
        lemma_half();
        lemma_whole_and_half(n);
        if p.magnitude() < whole(n).magnitude() {
            lemma_scaled_increases(p.magnitude(), whole(n).magnitude());
        }
        assert((2 * n + 1) * unit == 2 * (n * unit) + unit) by (nonlinear_arith);
        assert((n + 1) * unit == n * unit + unit) by (nonlinear_arith);
        lemma_sum_at_most(p, half(), top);
        let s = sum(p, half());
        if s.magnitude() < top.magnitude() {
            lemma_scaled_increases(s.magnitude(), top.magnitude());
        }
        assert(0 * unit == 0);
        lemma_whole_part_between(s, 0, n as nat);
    }
}

/// Whether tick `i` of an axis has a label: of ticks that are a half apart, every
/// other one.
pub open spec fn labelled(step: int, i: int) -> bool {
    !(step == 5 && i % 10 != 0)
}

/// The step between two ticks: at least one.
pub open spec fn stride(step: int) -> int {
    if step < 1 {
        1
    } else {
        step
    }
}

/// How many numbers there are from `i` to `end`.
pub open spec fn room(i: int, end: int) -> nat {
    if i <= end {
        (end - i + 1) as nat
    } else {
        0
    }
}

/// A picture with a tick of the time axis.
pub open spec fn x_tick(
    p: spec_fn(int, int) -> u8,
    font: Seq<u8>,
    s: SpectrogramView,
    axis: AxisView,
    i: int,
) -> spec_fn(int, int) -> u8 {
    let n = tick_length(s.cfg);
    let x = tick_place(i, axis.limit, s.cols);
    let over = BELOW + band_rows(s);
    let marked = lined_up(lined_up(p, LEFT - 1 + x, BELOW - n, n), LEFT - 1 + x, over, n);
    if labelled(axis.step, i) {
        let text = tick_text(i);
        let at = LEFT + x - 3 * encode_utf8(text).len();
        lettered(
            lettered(marked, font, at, BELOW - 6, LABELS, text),
            font,
            at,
            over + 14,
            LABELS,
            text,
        )
    } else {
        marked
    }
}

/// The length of a tick.
pub open spec fn tick_length(c: ConfigView) -> int {
    if c.no_axes {
        2
    } else {
        3
    }
}

/// A picture with the ticks of the time axis from `i` on.
pub open spec fn x_ticks(
    p: spec_fn(int, int) -> u8,
    font: Seq<u8>,
    s: SpectrogramView,
    axis: AxisView,
    i: int,
) -> spec_fn(int, int) -> u8
    decreases room(i, i32::MAX as int),
{
    if i <= i32::MAX && whole(i).at_most(axis.limit) {
        x_ticks(x_tick(p, font, s, axis, i), font, s, axis, i + stride(axis.step))
    } else {
        p
    }
}

/// The first character of a text, if there is one.
pub open spec fn initial(text: Seq<char>) -> Seq<char> {
    if text.len() == 0 {
        text
    } else {
        text.take(1)
    }
}

/// The name of the time axis.
pub open spec fn time_name(prefix: Seq<char>) -> Seq<char> {
    "Time ("@ + initial(prefix) + "s)"@
}

/// The name of the frequency axis.
pub open spec fn frequency_name(prefix: Seq<char>) -> Seq<char> {
    "Frequency ("@ + initial(prefix) + "Hz)"@
}

/// A picture with the time axis.
pub open spec fn x_axis(
    p: spec_fn(int, int) -> u8,
    font: Seq<u8>,
    s: SpectrogramView,
    axis: AxisView,
) -> spec_fn(int, int) -> u8 {
    let name = time_name(axis.prefix);
    let named = lettered(p, font, LEFT + halved(s.cols - text_cols(name)), 24, TEXT, name);
    x_ticks(named, font, s, axis, 0)
}

/// The label of a tick of the frequency axis.
pub open spec fn frequency_text(i: int) -> Seq<char> {
    if i == 0 {
        "DC"@
    } else {
        tick_text(i)
    }
}

/// A text at the right end of a field of five bytes.
pub open spec fn in_field(text: Seq<char>) -> Seq<char> {
    let n = encode_utf8(text).len();
    if n >= 5 {
        text
    } else {
        spaces((5 - n) as nat) + text
    }
}

/// The label to the left of a tick of the frequency axis.
pub open spec fn left_text(i: int) -> Seq<char> {
    if i == 0 {
        "   DC"@
    } else {
        in_field(tick_text(i))
    }
}

/// Whether a tick of the frequency axis of channel `k`, from the bottom, has a label:
/// the lowest tick of a channel that stands on another one has none.
pub open spec fn y_labelled(step: int, i: int, k: int) -> bool {
    labelled(step, i) && !(i == 0 && k != 0)
}

/// A picture with a tick of the frequency axis of channel `k`, from the bottom.
pub open spec fn y_tick(
    p: spec_fn(int, int) -> u8,
    font: Seq<u8>,
    s: SpectrogramView,
    axis: AxisView,
    k: int,
    i: int,
) -> spec_fn(int, int) -> u8 {
    let n = tick_length(s.cfg);
    let y = BELOW + k * (s.rows + 1) + tick_place(i, axis.limit, s.rows - 1);
    let marked = lined_right(lined_right(p, LEFT - n, y, n), LEFT + s.cols, y, n);
    if y_labelled(axis.step, i, k) {
        lettered(
            lettered(marked, font, LEFT - 34, y + 5, LABELS, left_text(i)),
            font,
            LEFT + s.cols + 6,
            y + 5,
            LABELS,
            frequency_text(i),
        )
    } else {
        marked
    }
}

/// A picture with the ticks of the frequency axis of channel `k` from `i` on.
pub open spec fn y_ticks(
    p: spec_fn(int, int) -> u8,
    font: Seq<u8>,
    s: SpectrogramView,
    axis: AxisView,
    k: int,
    i: int,
) -> spec_fn(int, int) -> u8
    decreases room(i, i32::MAX as int),
{
    if i <= i32::MAX && whole(i).at_most(axis.limit) {
        y_ticks(
            y_tick(p, font, s, axis, k, i),
            font,
            s,
            axis,
            k,
            i + stride(axis.step),
        )
    } else {
        p
    }
}

/// A picture with the frequency axes of the first `k` channels, from the bottom.
pub open spec fn y_channels(
    p: spec_fn(int, int) -> u8,
    font: Seq<u8>,
    s: SpectrogramView,
    axis: AxisView,
    k: int,
) -> spec_fn(int, int) -> u8
    decreases k,
{
    if k <= 0 {
        p
    } else {
        y_ticks(y_channels(p, font, s, axis, k - 1), font, s, axis, k - 1, 0)
    }
}

/// A picture with the frequency axes.
pub open spec fn y_axis(
    p: spec_fn(int, int) -> u8,
    font: Seq<u8>,
    s: SpectrogramView,
    axis: AxisView,
) -> spec_fn(int, int) -> u8 {
    let name = frequency_name(axis.prefix);
    let named = lettered_up(
        p,
        font,
        10,
        BELOW + halved(band_rows(s) - text_cols(name)),
        TEXT,
        name,
    );
    y_channels(named, font, s, axis, s.chans as int)
}

/// The rows of the scale of colours.
pub open spec fn scale_rows(s: SpectrogramView) -> int {
    if band_rows(s) < 400 {
        band_rows(s)
    } else {
        400
    }
}

/// The lowest row of the scale of colours.
pub open spec fn scale_base(s: SpectrogramView) -> int {
    BELOW + (band_rows(s) - scale_rows(s)) / 2
}

/// The level that row `j` of the scale of colours stands for.
pub open spec fn scale_level(c: ConfigView, j: int, rows: int) -> Double {
    product(
        whole(c.db_range),
        difference(quotient(whole(j), whole(rows - 1)), whole(1)),
    )
}

/// A picture with the scale of colours.
pub open spec fn scaled_colours(
    p: spec_fn(int, int) -> u8,
    s: SpectrogramView,
    cols: int,
    rows: int,
) -> spec_fn(int, int) -> u8 {
    |px: int, py: int|
        {
            let j = py - scale_base(s);
            if cols - RIGHT - SPECTRUM_WIDTH <= px < cols - RIGHT && 0 <= j < rows {
                colour_of(s.cfg, scale_level(s.cfg, j, scale_rows(s)))
            } else {
                p(px, py)
            }
        }
}

/// The decibels between two labels of the scale of colours.
pub open spec fn scale_step(c: ConfigView, rows: int) -> int {
    10 * saturated(
        whole_part(
            ceiled(
                quotient(
                    product(quotient(whole(c.db_range), whole(10)), whole(14)),
                    whole(rows - 1),
                ),
            ),
        ),
        i32::MIN as int,
        i32::MAX as int,
    )
}

/// The number at `i` decibels from the bottom of the scale of colours.
pub open spec fn scale_number(c: ConfigView, gain: Double, i: int) -> int {
    i - c.gain - c.db_range - saturated(
        whole_part(sum(gain, half())),
        i32::MIN as int,
        i32::MAX as int,
    )
}

/// A picture with the labels of the scale of colours from `i` decibels on.
pub open spec fn scale_labels(
    p: spec_fn(int, int) -> u8,
    font: Seq<u8>,
    s: SpectrogramView,
    gain: Double,
    cols: int,
    i: int,
) -> spec_fn(int, int) -> u8
    decreases room(i, s.cfg.db_range),
{
    if i <= s.cfg.db_range {
        let y = saturated(
            whole_part(
                sum(
                    product(
                        quotient(whole(i), whole(s.cfg.db_range)),
                        whole(scale_rows(s) - 1),
                    ),
                    half(),
                ),
            ),
            i32::MIN as int,
            i32::MAX as int,
        );
        let drawn = lettered(
            p,
            font,
            cols - RIGHT + 1,
            scale_base(s) + y + 5,
            LABELS,
            plus_digits(scale_number(s.cfg, gain, i)),
        );
        scale_labels(drawn, font, s, gain, cols, i + stride(scale_step(s.cfg, scale_rows(s))))
    } else {
        p
    }
}

/// A picture with the scale of colours, its unit and its labels.
pub open spec fn z_axis(
    p: spec_fn(int, int) -> u8,
    font: Seq<u8>,
    s: SpectrogramView,
    gain: Double,
    cols: int,
) -> spec_fn(int, int) -> u8 {
    let named = lettered(p, font, cols - RIGHT - 8, scale_base(s) - 13, TEXT, "dBFS"@);
    scale_labels(
        scaled_colours(named, s, cols, scale_rows(s)),
        font,
        s,
        gain,
        cols,
        0,
    )
}

/// A picture with everything that stands around the levels.
pub open spec fn legends(
    p: spec_fn(int, int) -> u8,
    font: Seq<u8>,
    s: SpectrogramView,
    x: AxisView,
    y: AxisView,
    gain: Double,
    cols: int,
    rows: int,
) -> spec_fn(int, int) -> u8 {
    let head = commented(titled(p, font, s.cfg.title, cols, rows), font, s.cfg.comment, cols);
    z_axis(y_axis(x_axis(head, font, s, x), font, s, y), font, s, gain, cols)
}

/// Draws the title and the comment.
fn draw_head(img: &mut Image, Ghost(p): Ghost<spec_fn(int, int) -> u8>, cfg: &Config)
    requires
        shows(*old(img), p),
    ensures
        shows(
            *final(img),
            commented(
                titled(
                    p,
                    old(img).font@,
                    cfg@.title,
                    old(img).cols as int,
                    old(img).rows as int,
                ),
                old(img).font@,
                cfg@.comment,
                old(img).cols as int,
            ),
        ),
        final(img).same_frame(*old(img)),
{
    let ghost font = img.font@;
    let cols: i128 = img.cols as i128;
    if let Some(title) = &cfg.title {
        let n = columns_of(title.as_str());
        if n < cols + 1 {
            let x = half_of(cols - n);
            let y: i128 = img.rows as i128 - 12;
            letter(img, Ghost(p), x, y, TEXT, title.as_str());
        }
    }
    let ghost q = titled(p, font, cfg@.title, cols as int, old(img).rows as int);
    let n = columns_of(cfg.comment.as_str());
    if n < cols + 1 {
        letter(img, Ghost(q), 1, 12, TEXT, cfg.comment.as_str());
    }
}

/// Draws a tick of the time axis.
fn draw_x_tick(
    img: &mut Image,
    Ghost(p): Ghost<spec_fn(int, int) -> u8>,
    spec: &Spectrogram,
    c_rows: i32,
    axis: &Axis,
    i: i32,
)
    requires
        shows(*old(img), p),
        drawable(spec@),
        c_rows == band_rows(spec@),
        0 <= i,
    ensures
        shows(*final(img), x_tick(p, old(img).font@, spec@, axis@, i as int)),
        final(img).same_frame(*old(img)),
{
    let ghost font = img.font@;
    let n: i128 = if spec.cfg.no_axes {
        2
    } else {
        3
    };
    let x: i128 = place_of(i as i64, axis.limit, spec.cols) as i128;
    let column: i128 = LEFT as i128 - 1 + x;
    let over: i128 = BELOW as i128 + c_rows as i128;
    line_up(img, Ghost(p), column, BELOW as i128 - n, n);
    let ghost p1 = lined_up(p, column as int, BELOW - n, n as int);
    line_up(img, Ghost(p1), column, over, n);
    let ghost p2 = lined_up(p1, column as int, over as int, n as int);
    if !(axis.step == 5 && i % 10 != 0) {
        let text = fmt_g(fraction(1, 10).times(Double::from_i64(i as i64)), 6);
        let len: usize = text.as_str().as_bytes().len();
        let at: i128 = LEFT as i128 + x - 3 * len as i128;
        letter(img, Ghost(p2), at, BELOW as i128 - 6, LABELS, text.as_str());
        let ghost p3 = lettered(p2, font, at as int, BELOW - 6, LABELS, text@);
        letter(img, Ghost(p3), at, over + 14, LABELS, text.as_str());
    }
}

/// Draws the time axis.
fn draw_x_axis(
    img: &mut Image,
    Ghost(p): Ghost<spec_fn(int, int) -> u8>,
    spec: &Spectrogram,
    c_rows: i32,
    axis: &Axis,
)
    requires
        shows(*old(img), p),
        drawable(spec@),
        c_rows == band_rows(spec@),
        axis.sound(),
    ensures
        shows(*final(img), x_axis(p, old(img).font@, spec@, axis@)),
        final(img).same_frame(*old(img)),
{
    let ghost font = img.font@;
    let mut name = "Time (".to_string();
    name.append(first_char(axis.prefix.as_str()));
    name.append("s)");
    let n = columns_of(name.as_str());
    let at: i128 = LEFT as i128 + half_of(spec.cols as i128 - n);
    let ghost named = lettered(p, font, at as int, 24, TEXT, name@);
    letter(img, Ghost(p), at, 24, TEXT, name.as_str());
    let by: i64 = if axis.step < 1 {
        1
    } else {
        axis.step as i64
    };
    let mut i: i64 = 0;
    let ghost mut q = named;
    while i <= 0x7FFF_FFFF && Double::from_i64(i).le(axis.limit)
        invariant
            0 <= i <= 0x1_0000_0000,
            by == stride(axis.step as int),
            1 <= by <= 0x7FFF_FFFF,
            drawable(spec@),
            c_rows == band_rows(spec@),
            font == img.font@,
            img.same_frame(*old(img)),
            shows(*img, q),
            x_ticks(q, font, spec@, axis@, i as int) == x_ticks(named, font, spec@, axis@, 0),
        decreases 0x1_0000_0000 - i,
    {
        draw_x_tick(img, Ghost(q), spec, c_rows, axis, i as i32);
        proof {
            q = x_tick(q, font, spec@, axis@, i as int);
        }
        i = i + by;
    }
}

/// Draws a tick of the frequency axis of channel `k`, from the bottom.
fn draw_y_tick(
    img: &mut Image,
    Ghost(p): Ghost<spec_fn(int, int) -> u8>,
    spec: &Spectrogram,
    axis: &Axis,
    k: usize,
    i: i32,
)
    requires
        shows(*old(img), p),
        drawable(spec@),
        k < spec.chans,
        0 <= i,
    ensures
        shows(*final(img), y_tick(p, old(img).font@, spec@, axis@, k as int, i as int)),
        final(img).same_frame(*old(img)),
{
    let ghost font = img.font@;
    let n: i128 = if spec.cfg.no_axes {
        2
    } else {
        3
    };
    proof {
        let r = spec.rows + 1;
        let c = spec.chans as int;
        assert(0 <= k * r <= c * r) by (nonlinear_arith)
            requires
                0 <= k <= c,
                r >= 0,
        ;
        assert(c * r == spec.rows * c + c) by (nonlinear_arith)
            requires
                r == spec.rows + 1,
        ;
    }
    let base: i128 = BELOW as i128 + k as i128 * (spec.rows as i128 + 1);
    let y: i128 = base + place_of(i as i64, axis.limit, spec.rows - 1) as i128;
    let right: i128 = LEFT as i128 + spec.cols as i128;
    line_right(img, Ghost(p), LEFT as i128 - n, y, n);
    let ghost p1 = lined_right(p, LEFT - n, y as int, n as int);
    line_right(img, Ghost(p1), right, y, n);
    let ghost p2 = lined_right(p1, right as int, y as int, n as int);
    if !((axis.step == 5 && i % 10 != 0) || (i == 0 && k != 0)) {
        let (before, behind) = if i == 0 {
            ("   DC".to_string(), "DC".to_string())
        } else {
            let text = fmt_g(fraction(1, 10).times(Double::from_i64(i as i64)), 6);
            (pad_left(text.as_str(), 5), text)
        };
        letter(img, Ghost(p2), LEFT as i128 - 34, y + 5, LABELS, before.as_str());
        let ghost p3 = lettered(p2, font, LEFT - 34, y + 5, LABELS, before@);
        letter(img, Ghost(p3), right + 6, y + 5, LABELS, behind.as_str());
    }
}

/// Draws the ticks of the frequency axis of channel `k`, from the bottom.
fn draw_y_ticks(
    img: &mut Image,
    Ghost(p): Ghost<spec_fn(int, int) -> u8>,
    spec: &Spectrogram,
    axis: &Axis,
    k: usize,
)
    requires
        shows(*old(img), p),
        drawable(spec@),
        k < spec.chans,
    ensures
        shows(*final(img), y_ticks(p, old(img).font@, spec@, axis@, k as int, 0)),
        final(img).same_frame(*old(img)),
{
    let ghost font = img.font@;
    let by: i64 = if axis.step < 1 {
        1
    } else {
        axis.step as i64
    };
    let mut i: i64 = 0;
    let ghost mut q = p;
    while i <= 0x7FFF_FFFF && Double::from_i64(i).le(axis.limit)
        invariant
            0 <= i <= 0x1_0000_0000,
            by == stride(axis.step as int),
            1 <= by <= 0x7FFF_FFFF,
            drawable(spec@),
            k < spec.chans,
            font == img.font@,
            img.same_frame(*old(img)),
            shows(*img, q),
            y_ticks(q, font, spec@, axis@, k as int, i as int) == y_ticks(
                p,
                font,
                spec@,
                axis@,
                k as int,
                0,
            ),
        decreases 0x1_0000_0000 - i,
    {
        draw_y_tick(img, Ghost(q), spec, axis, k, i as i32);
        proof {
            q = y_tick(q, font, spec@, axis@, k as int, i as int);
        }
        i = i + by;
    }
}

/// Draws the frequency axes.
fn draw_y_axis(
    img: &mut Image,
    Ghost(p): Ghost<spec_fn(int, int) -> u8>,
    spec: &Spectrogram,
    c_rows: i32,
    axis: &Axis,
)
    requires
        shows(*old(img), p),
        drawable(spec@),
        c_rows == band_rows(spec@),
        axis.sound(),
    ensures
        shows(*final(img), y_axis(p, old(img).font@, spec@, axis@)),
        final(img).same_frame(*old(img)),
{
    let ghost font = img.font@;
    let mut name = "Frequency (".to_string();
    name.append(first_char(axis.prefix.as_str()));
    name.append("Hz)");
    let n = columns_of(name.as_str());
    let at: i128 = BELOW as i128 + half_of(c_rows as i128 - n);
    let ghost named = lettered_up(p, font, 10, at as int, TEXT, name@);
    letter_up(img, Ghost(p), 10, at, TEXT, name.as_str());
    let mut k: usize = 0;
    while k < spec.chans
        invariant
            k <= spec.chans,
            drawable(spec@),
            font == img.font@,
            img.same_frame(*old(img)),
            shows(*img, y_channels(named, font, spec@, axis@, k as int)),
        decreases spec.chans - k,
    {
        draw_y_ticks(
            img,
            Ghost(y_channels(named, font, spec@, axis@, k as int)),
            spec,
            axis,
            k,
        );
        k = k + 1;
    }
}

/// Draws the scale of colours.
fn draw_scale(
    img: &mut Image,
    Ghost(p): Ghost<spec_fn(int, int) -> u8>,
    spec: &Spectrogram,
    rows: i32,
    base: i128,
)
    requires
        shows(*old(img), p),
        drawable(spec@),
        rows == scale_rows(spec@),
        base == scale_base(spec@),
    ensures
        shows(
            *final(img),
            scaled_colours(p, spec@, old(img).cols as int, scale_rows(spec@)),
        ),
        final(img).same_frame(*old(img)),
{
    let cols: i128 = img.cols as i128;
    let range = Double::from_i64(spec.cfg.db_range as i64);
    let last = Double::from_i64(rows as i64 - 1);
    let one = Double::from_i64(1);
    let mut j: i32 = 0;
    while j < rows
        invariant
            0 <= j,
            j <= rows || rows < 0,
            drawable(spec@),
            rows == scale_rows(spec@),
            base == scale_base(spec@),
            range == whole(spec@.cfg.db_range),
            last == whole(rows - 1),
            one == whole(1),
            cols == img.cols,
            img.same_frame(*old(img)),
            shows(*img, scaled_colours(p, spec@, cols as int, j as int)),
        decreases rows - j,
    {
        let level = range.times(Double::from_i64(j as i64).over(last).minus(one));
        let b = colour(&spec.cfg, level);
        let mut i: i128 = 0;
        while i < 14
            invariant
                0 <= i <= 14,
                0 <= j < rows,
                drawable(spec@),
                rows == scale_rows(spec@),
                base == scale_base(spec@),
                cols == img.cols,
                b == colour_of(spec@.cfg, scale_level(spec@.cfg, j as int, rows as int)),
                img.same_frame(*old(img)),
                img.well_formed(),
                forall|x: int, y: int|
                    img.has(x, y) ==> #[trigger] img.at(x, y) == if y == base + j && cols - RIGHT
                        - i <= x < cols - RIGHT {
                        b
                    } else {
                        scaled_colours(p, spec@, cols as int, j as int)(x, y)
                    },
            decreases 14 - i,
        {
            img.plot(cols - RIGHT as i128 - 1 - i, base + j as i128, b);
            i = i + 1;
        }
        j = j + 1;
    }
    assert(shows(*img, scaled_colours(p, spec@, cols as int, scale_rows(spec@))));
}

/// Draws the scale of colours with its unit and its labels.
fn draw_z_axis(
    img: &mut Image,
    Ghost(p): Ghost<spec_fn(int, int) -> u8>,
    spec: &Spectrogram,
    c_rows: i32,
    gain: Double,
)
    requires
        shows(*old(img), p),
        drawable(spec@),
        c_rows == band_rows(spec@),
        c_rows >= 1,
    ensures
        shows(*final(img), z_axis(p, old(img).font@, spec@, gain, old(img).cols as int)),
        final(img).same_frame(*old(img)),
{
    let ghost font = img.font@;
    let cols: i128 = img.cols as i128;
    let k: i32 = if c_rows < 400 {
        c_rows
    } else {
        400
    };
    let base: i128 = BELOW as i128 + ((c_rows - k) / 2) as i128;
    letter(img, Ghost(p), cols - RIGHT as i128 - 8, base - 13, TEXT, "dBFS");
    let ghost p1 = lettered(p, font, cols - RIGHT - 8, base - 13, TEXT, "dBFS"@);
    draw_scale(img, Ghost(p1), spec, k, base);
    let ghost p2 = scaled_colours(p1, spec@, cols as int, k as int);
    let range = Double::from_i64(spec.cfg.db_range as i64);
    let last = Double::from_i64(k as i64 - 1);
    let one_half = fraction(1, 2);
    let tall = range.over(Double::from_i64(10)).times(Double::from_i64(14)).over(last);
    let step: i64 = 10 * tall.ceil().to_i32() as i64;
    let by: i64 = if step < 1 {
        1
    } else {
        step
    };
    let offset: i64 = gain.plus(one_half).to_i32() as i64;
    let end: i64 = spec.cfg.db_range as i64;
    let mut i: i64 = 0;
    let ghost mut q = p2;
    while i <= end
        invariant
            0 <= i <= 0x10_0000_0000,
            end == spec@.cfg.db_range,
            end <= 0x7FFF_FFFF,
            by == stride(scale_step(spec@.cfg, k as int)),
            1 <= by <= 0x8_0000_0000,
            range == whole(spec@.cfg.db_range),
            last == whole(k - 1),
            one_half == half(),
            offset == saturated(
                whole_part(sum(gain, half())),
                i32::MIN as int,
                i32::MAX as int,
            ),
            drawable(spec@),
            k == scale_rows(spec@),
            base == scale_base(spec@),
            0 <= base <= 0x8000_0000,
            cols == img.cols,
            font == img.font@,
            img.same_frame(*old(img)),
            shows(*img, q),
            scale_labels(q, font, spec@, gain, cols as int, i as int) == scale_labels(
                p2,
                font,
                spec@,
                gain,
                cols as int,
                0,
            ),
        decreases 0x10_0000_0000 - i,
    {
        let y: i128 = Double::from_i64(i).over(range).times(last).plus(
            one_half,
        ).to_i32() as i128;
        let val: i64 = i - spec.cfg.gain as i64 - end - offset;
        let text = plus_decimal(val);
        letter(img, Ghost(q), cols - RIGHT as i128 + 1, base + y + 5, LABELS, text.as_str());
        proof {
            q = lettered(
                q,
                font,
                cols - RIGHT + 1,
                base + y + 5,
                LABELS,
                plus_digits(scale_number(spec@.cfg, gain, i as int)),
            );
        }
        i = i + by;
    }
}

/// Draws everything that stands around the levels.
pub(crate) fn draw_legends(
    img: &mut Image,
    Ghost(p): Ghost<spec_fn(int, int) -> u8>,
    spec: &Spectrogram,
    c_rows: i32,
    x: &Axis,
    y: &Axis,
    gain: Double,
)
    requires
        shows(*old(img), p),
        drawable(spec@),
        c_rows == band_rows(spec@),
        c_rows >= 1,
        x.sound(),
        y.sound(),
    ensures
        shows(
            *final(img),
            legends(
                p,
                old(img).font@,
                spec@,
                x@,
                y@,
                gain,
                old(img).cols as int,
                old(img).rows as int,
            ),
        ),
        final(img).same_frame(*old(img)),
{
    let ghost font = img.font@;
    draw_head(img, Ghost(p), &spec.cfg);
    let ghost p1 = commented(
        titled(p, font, spec@.cfg.title, old(img).cols as int, old(img).rows as int),
        font,
        spec@.cfg.comment,
        old(img).cols as int,
    );
    draw_x_axis(img, Ghost(p1), spec, c_rows, x);
    let ghost p2 = x_axis(p1, font, spec@, x@);
    draw_y_axis(img, Ghost(p2), spec, c_rows, y);
    let ghost p3 = y_axis(p2, font, spec@, y@);
    draw_z_axis(img, Ghost(p3), spec, c_rows, gain);
}

/// The seconds that a number of columns stand for.
pub open spec fn seconds_of(cols: int, step_size: int, block_steps: int, rate: Double) -> Double {
    quotient(product(product(whole(cols), whole(step_size)), whole(block_steps)), rate)
}

/// The seconds that a number of columns stand for.
pub fn seconds(cols: i32, step_size: i32, block_steps: i32, rate: Double) -> (r: Double)
    ensures
        r == seconds_of(cols as int, step_size as int, block_steps as int, rate),
{
    Double::from_i64(cols as i64).times(Double::from_i64(step_size as i64)).times(
        Double::from_i64(block_steps as i64),
    ).over(rate)
}

/// How far the time axis goes, in seconds, and how many ticks it has room for: one in
/// 27 columns.
pub fn x_extent(spec: &Spectrogram) -> (r: (Double, i32))
    requires
        0 <= spec.cols,
    ensures
        r.0 == seconds_of(
            spec@.cols,
            spec@.step_size,
            spec@.block_steps,
            spec@.rate,
        ),
        r.1 == spec.cols / 27,
{
    (seconds(spec.cols, spec.step_size, spec.block_steps, spec.rate), spec.cols / 27)
}

/// How far the frequency axis goes, in hertz, and how many ticks it has room for: one
/// in 18 rows.
pub fn y_extent(spec: &Spectrogram) -> (r: (Double, i32))
    requires
        1 <= spec.rows,
    ensures
        r.0 == quotient(spec.rate, whole(2)),
        r.1 == (spec.rows - 1) / 18,
{
    (spec.rate.over(Double::from_i64(2)), (spec.rows - 1) / 18)
}

} // verus!
