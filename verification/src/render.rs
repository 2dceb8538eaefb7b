//! Drawing a spectrogram.
use crate::arith::{negated, quotient, sum, whole};
use crate::axis::{axis, axis_of, Axis, AxisValues, AxisView};
use crate::canvas::shows;
use crate::codec::{encode_png, inflate_font, inflated, png_file};
use crate::config::{Config, ConfigView};
use crate::convert::{widen_single, widened};
use crate::double::Double;
use crate::image::{lemma_place, Image, FONT_LEN};
use crate::legend::{draw_legends, legends, scale_level, seconds_of, x_extent, y_extent};
use crate::palette::{
    colour, colour_of, colourful, encodable, make_palette, palette_byte, Tables, TablesView,
    BACKGROUND, FIXED_PALETTE, GRID,
};
use crate::spectrogram::{Spectrogram, SpectrogramView};
use vstd::arithmetic::div_mod::{lemma_fundamental_div_mod, lemma_fundamental_div_mod_converse};
use vstd::prelude::*;
use vstd::string::*;

verus! {

/// Rows below the levels.
pub const BELOW: i32 = 48;

/// Columns to the left of the levels.
pub const LEFT: i32 = 58;

/// Columns between the levels and the scale of colours.
pub const BETWEEN: i32 = 37;

/// Columns of the scale of colours.
pub const SPECTRUM_WIDTH: i32 = 14;

/// Columns to the right of the scale of colours.
pub const RIGHT: i32 = 35;

/// Rows of all channels and the lines between them.
pub open spec fn band_rows(s: SpectrogramView) -> int {
    s.rows * s.chans + s.chans - 1
}

/// The row that the levels begin at.
pub open spec fn bottom(c: ConfigView) -> int {
    if c.raw {
        0
    } else {
        BELOW as int
    }
}

/// The column that the levels begin at.
pub open spec fn left(c: ConfigView) -> int {
    if c.raw {
        0
    } else {
        LEFT as int
    }
}

/// The rows of the image.
pub open spec fn image_rows(s: SpectrogramView) -> int {
    if s.cfg.raw {
        band_rows(s)
    } else {
        BELOW + band_rows(s) + 30 + if s.cfg.title is Some {
            20int
        } else {
            0int
        }
    }
}

/// The columns of the image.
pub open spec fn image_cols(s: SpectrogramView) -> int {
    if s.cfg.raw {
        s.cols
    } else {
        LEFT + s.cols + BETWEEN + SPECTRUM_WIDTH + RIGHT
    }
}

/// Whether a spectrogram has a level for every place, and an image for it is within
/// the range of its coordinates.
pub open spec fn drawable(s: SpectrogramView) -> bool {
    &&& 1 <= s.chans
    &&& 2 <= s.rows
    &&& 0 <= s.cols
    &&& s.dbfs.len() == s.chans
    &&& forall|k: int| 0 <= k < s.chans ==> (#[trigger] s.dbfs[k]).len() == s.cols * s.rows
    &&& band_rows(s) <= i32::MAX
    &&& image_cols(s) * image_rows(s) <= i32::MAX
}

/// What is added to the levels: with normalisation, as much as brings the largest one
/// to zero.
pub open spec fn autogain(s: SpectrogramView) -> Double {
    if s.cfg.normalize {
        negated(s.max)
    } else {
        whole(0)
    }
}

/// The colour of a level of channel `k`.
pub open spec fn level_colour(s: SpectrogramView, k: int, col: int, row: int) -> u8 {
    colour_of(s.cfg, sum(widened(s.dbfs[k][col * s.rows + row]), autogain(s)))
}

/// The levels of all channels, the first one at the top, with lines of axis colour
/// around and between them.
pub open spec fn bands(s: SpectrogramView) -> spec_fn(int, int) -> u8 {
    |px: int, py: int|
        {
            let x = px - left(s.cfg);
            let y = py - bottom(s.cfg);
            let row = y % (s.rows + 1);
            if 0 <= x < s.cols && 0 <= y < band_rows(s) && row < s.rows {
                level_colour(s, s.chans - 1 - y / (s.rows + 1), x, row)
            } else if !s.cfg.raw && !s.cfg.no_axes && -1 <= x <= s.cols && -1 <= y <= band_rows(
                s,
            ) {
                GRID
            } else {
                BACKGROUND
            }
        }
}

/// The exact size of the image of a spectrogram.
fn image_size(spec: &Spectrogram) -> (r: (i32, i32))
    requires
        drawable(spec@),
    ensures
        r.0 == image_cols(spec@),
        r.1 == image_rows(spec@),
        0 <= r.0,
        1 <= r.1,
{
    let c_rows = band_height(spec);
    proof {
        lemma_size(spec@);
    }
    if spec.cfg.raw {
        (spec.cols, c_rows)
    } else {
        let extra: i32 = if spec.cfg.title.is_some() {
            20
        } else {
            0
        };
        (
            LEFT + spec.cols + BETWEEN + SPECTRUM_WIDTH + RIGHT,
            BELOW + c_rows + 30 + extra,
        )
    }
}

/// The size of an image that has something around its levels leaves room for it.
proof fn lemma_size(s: SpectrogramView)
    requires
        drawable(s),
    ensures
        band_rows(s) >= 2,
        !s.cfg.raw ==> image_cols(s) <= i32::MAX && image_rows(s) <= i32::MAX,
{
    let (r, k) = (s.rows, s.chans as int);
    assert(r * k >= 2) by (nonlinear_arith)
        requires
            r >= 2,
            k >= 1,
    ;
    if !s.cfg.raw {
        let (w, h) = (image_cols(s), image_rows(s));
        assert(w <= i32::MAX && h <= i32::MAX) by (nonlinear_arith)
            requires
                w * h <= i32::MAX,
                w >= 1,
                h >= 1,
        ;
    }
}

fn band_height(spec: &Spectrogram) -> (n: i32)
    requires
        drawable(spec@),
    ensures
        n == band_rows(spec@),
        2 <= n,
{
    proof {
        let r = spec.rows as int;
        let k = spec.chans as int;
        assert(r * k >= r && r * k >= 2 * k) by (nonlinear_arith)
            requires
                r >= 2,
                k >= 1,
        ;
    }
    spec.rows * spec.chans as i32 + (spec.chans as i32 - 1)
}

/// The colour at a place of the levels, counted from their lowest left one.
fn band_colour(spec: &Spectrogram, gain: Double, x: i32, y: i32) -> (c: Option<u8>)
    requires
        drawable(spec@),
        gain == autogain(spec@),
        0 <= x < spec.cols,
        0 <= y < band_rows(spec@),
    ensures
        ({
            let s = spec@;
            let row = y as int % (s.rows + 1);
            match c {
                Some(index) => row < s.rows && index == level_colour(
                    s,
                    s.chans - 1 - y as int / (s.rows + 1),
                    x as int,
                    row,
                ),
                None => row == s.rows,
            }
        }),
{
    proof {
        let r = spec.rows as int;
        let k = spec.chans as int;
        assert(r * k >= r) by (nonlinear_arith)
            requires
                r >= 2,
                k >= 1,
        ;
    }
    let pitch: i64 = spec.rows as i64 + 1;
    let row: i32 = (y as i64 % pitch) as i32;
    if row == spec.rows {
        return None;
    }
    let up: i64 = y as i64 / pitch;
    proof {
        let s = spec@;
        lemma_fundamental_div_mod(y as int, pitch as int);
        let q = y as int / pitch as int;
        let n = s.chans as int;
        assert(pitch * n == s.rows * n + n) by (nonlinear_arith)
            requires
                pitch == s.rows + 1,
        ;
        assert(0 <= q < n) by (nonlinear_arith)
            requires
                y == pitch * q + row,
                0 <= row < pitch,
                0 <= y < pitch * n - 1,
                pitch >= 1,
        ;
        assert(spec.dbfs@[n - 1 - q]@ == s.dbfs[n - 1 - q]);
        lemma_place(row as int, x as int, spec.rows as int, spec.cols as int);
        assert(spec.cols * spec.rows == spec.rows * spec.cols) by (nonlinear_arith);
    }
    let k: usize = spec.chans - 1 - up as usize;
    let levels = &spec.dbfs[k];
    let count: usize = levels.len();
    assert(count == spec.cols * spec.rows);
    assert(0 <= x * spec.rows) by (nonlinear_arith)
        requires
            x >= 0,
            spec.rows >= 0,
    ;
    let place: usize = x as usize * spec.rows as usize + row as usize;
    let level = widen_single(levels[place]).plus(gain);
    Some(colour(&spec.cfg, level))
}

/// Draws the levels.
fn draw_bands(spec: &Spectrogram, font: Vec<u8>) -> (img: Image)
    requires
        drawable(spec@),
        font@.len() >= FONT_LEN,
    ensures
        shows(img, bands(spec@)),
        img.cols == image_cols(spec@),
        img.rows == image_rows(spec@),
        img.font@ == font@,
{
    let (cols, rows) = image_size(spec);
    let c_rows = band_height(spec);
    let axes = !spec.cfg.raw && !spec.cfg.no_axes;
    let x0: i32 = if spec.cfg.raw {
        0
    } else {
        LEFT
    };
    let y0: i32 = if spec.cfg.raw {
        0
    } else {
        BELOW
    };
    let gain = if spec.cfg.normalize {
        spec.max.negate()
    } else {
        Double::from_i64(0)
    };
    assert(gain == autogain(spec@));
    let mut img = Image::blank(cols, rows, BACKGROUND, font);
    let ghost p = bands(spec@);
    let mut py: i32 = 0;
    while py < rows
        invariant
            0 <= py <= rows,
            drawable(spec@),
            gain == autogain(spec@),
            axes == (!spec.cfg.raw && !spec.cfg.no_axes),
            c_rows == band_rows(spec@),
            x0 == left(spec@.cfg),
            y0 == bottom(spec@.cfg),
            p == bands(spec@),
            img.well_formed(),
            img.has_glyphs(),
            img.cols == cols == image_cols(spec@),
            img.rows == rows == image_rows(spec@),
            img.font@ == font@,
            forall|x: int, y: int|
                img.has(x, y) ==> #[trigger] img.at(x, y) == if y < py {
                    p(x, y)
                } else {
                    BACKGROUND
                },
        decreases rows - py,
    {
        let mut px: i32 = 0;
        while px < cols
            invariant
                0 <= px <= cols,
                0 <= py < rows,
                drawable(spec@),
                gain == autogain(spec@),
                axes == (!spec.cfg.raw && !spec.cfg.no_axes),
                c_rows == band_rows(spec@),
                    x0 == left(spec@.cfg),
                y0 == bottom(spec@.cfg),
                p == bands(spec@),
                img.well_formed(),
                img.has_glyphs(),
                img.cols == cols == image_cols(spec@),
                img.rows == rows == image_rows(spec@),
                img.font@ == font@,
                forall|x: int, y: int|
                    img.has(x, y) ==> #[trigger] img.at(x, y) == if y < py || (y == py && x < px) {
                        p(x, y)
                    } else {
                        BACKGROUND
                    },
            decreases cols - px,
        {
            let x: i32 = px - x0;
            let y: i32 = py - y0;
            let mut c: u8 = BACKGROUND;
            if axes && -1 <= x && x <= spec.cols && -1 <= y && y <= c_rows {
                c = GRID;
            }
            if 0 <= x && x < spec.cols && 0 <= y && y < c_rows {
                if let Some(index) = band_colour(spec, gain, x, y) {
                    c = index;
                }
            }
            assert(c == p(px as int, py as int));
            img.set(px, py, c);
            px = px + 1;
        }
        py = py + 1;
    }
    img
}

/// The picture of a spectrogram.
pub open spec fn picture(s: SpectrogramView, font: Seq<u8>, x: AxisView, y: AxisView) -> spec_fn(
    int,
    int,
) -> u8 {
    if s.cfg.raw {
        bands(s)
    } else {
        legends(bands(s), font, s, x, y, autogain(s), image_cols(s), image_rows(s))
    }
}

/// Draws a spectrogram.
pub fn draw(spec: &Spectrogram, font: Vec<u8>, x: &Axis, y: &Axis) -> (img: Image)
    requires
        drawable(spec@),
        font@.len() >= FONT_LEN,
        x.sound(),
        y.sound(),
    ensures
        img.cols == image_cols(spec@),
        img.rows == image_rows(spec@),
        shows(img, picture(spec@, font@, x@, y@)),
{
    let ghost letters = font@;
    let mut img = draw_bands(spec, font);
    if !spec.cfg.raw {
        let gain = if spec.cfg.normalize {
            spec.max.negate()
        } else {
            Double::from_i64(0)
        };
        assert(gain == autogain(spec@));
        let c_rows = band_height(spec);
        draw_legends(&mut img, Ghost(bands(spec@)), spec, c_rows, x, y, gain);
    }
    img
}

/// The time axis of a spectrogram.
pub open spec fn time_axis(s: SpectrogramView, v: AxisValues) -> AxisView {
    axis_of(seconds_of(s.cols, s.step_size, s.block_steps, s.rate), s.cols / 27, v)
}

/// The frequency axis of a spectrogram.
pub open spec fn frequency_axis(s: SpectrogramView, v: AxisValues) -> AxisView {
    axis_of(quotient(s.rate, whole(2)), (s.rows - 1) / 18, v)
}

fn axes(spec: &Spectrogram, x: &AxisValues, y: &AxisValues) -> (r: (Axis, Axis))
    requires
        drawable(spec@),
    ensures
        r.0@ == time_axis(spec@, *x),
        r.1@ == frequency_axis(spec@, *y),
        r.0.sound(),
        r.1.sound(),
{
    let (end, ticks) = x_extent(spec);
    let (top, marks) = y_extent(spec);
    (axis(end, ticks, x), axis(top, marks, y))
}

/// The part of a picture that an image shows, row by row from the top.
pub open spec fn from_top(p: spec_fn(int, int) -> u8, cols: int, rows: int) -> Seq<u8> {
    Seq::new((cols * rows) as nat, |n: int| p(n % cols, rows - 1 - n / cols))
}

/// The pixels of an image, row by row from the top.
pub(crate) fn top_down(img: &Image, Ghost(p): Ghost<spec_fn(int, int) -> u8>) -> (r: Vec<u8>)
    requires
        shows(*img, p),
    ensures
        r@ == from_top(p, img.cols as int, img.rows as int),
{
    let cols = img.cols;
    let rows = img.rows;
    let ghost size = cols * rows;
    let mut r: Vec<u8> = Vec::new();
    let mut y: i32 = rows;
    assert(0 * cols == 0);
    assert(size >= 0) by (nonlinear_arith)
        requires
            size == cols * rows,
            cols >= 0,
            rows >= 0,
    ;
    while y > 0
        invariant
            0 <= y <= rows,
            cols == img.cols,
            rows == img.rows,
            size == cols * rows,
            0 <= size <= i32::MAX,
            shows(*img, p),
            r@.len() == (rows - y) * cols,
            r@.len() <= size,
            forall|n: int|
                0 <= n < r@.len() ==> #[trigger] r@[n] == from_top(
                    p,
                    cols as int,
                    rows as int,
                )[n],
        decreases y,
    {
        y = y - 1;
        let mut x: i32 = 0;
        proof {
            assert((rows - y) * cols == (rows - y - 1) * cols + cols) by (nonlinear_arith);
            assert((rows - y) * cols <= size) by (nonlinear_arith)
                requires
                    size == cols * rows,
                    0 <= rows - y <= rows,
                    cols >= 0,
            ;
        }
        while x < cols
            invariant
                0 <= x <= cols,
                0 <= y < rows,
                cols == img.cols,
                rows == img.rows,
                size == cols * rows,
                0 <= size <= i32::MAX,
                (rows - y) * cols <= size,
                (rows - y) * cols == (rows - y - 1) * cols + cols,
                shows(*img, p),
                r@.len() == (rows - y - 1) * cols + x,
                forall|n: int|
                    0 <= n < r@.len() ==> #[trigger] r@[n] == from_top(
                        p,
                        cols as int,
                        rows as int,
                    )[n],
            decreases cols - x,
        {
            proof {
                lemma_place(x as int, y as int, cols as int, rows as int);
                assert(0 <= y * cols) by (nonlinear_arith)
                    requires
                        0 <= y,
                        0 <= cols,
                ;
                let n = r@.len() as int;
                lemma_fundamental_div_mod_converse(
                    n,
                    cols as int,
                    rows - y - 1,
                    x as int,
                );
                assert(img.has(x as int, y as int));
                assert(img.at(x as int, y as int) == p(x as int, y as int));
            }
            r.push(img.pixels[(y * cols + x) as usize]);
            x = x + 1;
        }
    }
    assert((rows - y) * cols == cols * rows) by (nonlinear_arith)
        requires
            y == 0,
    ;
    assert(r@ =~= from_top(p, cols as int, rows as int));
    r
}

/// The bytes of a palette; see [`make_palette`].
pub open spec fn palette_of(c: ConfigView, tables: TablesView, waves: Seq<Double>) -> Seq<u8> {
    Seq::new(
        (3 * (FIXED_PALETTE + c.spectrum_points)) as nat,
        |n: int| palette_byte(c, tables, waves, n / 3, n % 3),
    )
}

/// Whether a zlib stream, if it inflates at all, holds a glyph for every letter.
pub open spec fn font_complete(font: Seq<u8>) -> bool {
    inflated(font) matches Ok(letters) ==> letters.len() >= FONT_LEN
}

/// Whether `r` is the PNG file of a spectrogram, or says why there is none.
pub open spec fn is_png_of(
    r: Result<Vec<u8>, String>,
    s: SpectrogramView,
    font: Seq<u8>,
    palette: Seq<u8>,
    x: AxisView,
    y: AxisView,
) -> bool {
    let cols = image_cols(s);
    let rows = image_rows(s);
    match inflated(font) {
        Err(why) => r matches Err(text) && text@ == "font inflate error: "@ + why,
        Ok(letters) => if cols == 0 {
            r matches Err(text) && text@ == "PNG header error: "@ + "Zero width not allowed"@
        } else {
            r matches Ok(file) && file@ == png_file(
                cols as u32,
                rows as u32,
                palette,
                from_top(picture(s, letters, x, y), cols, rows),
            )
        },
    }
}

/// Whether `r` is the image of a spectrogram, or says why there is none.
pub open spec fn is_rgba_of(
    r: Result<Rgba, String>,
    s: SpectrogramView,
    font: Seq<u8>,
    palette: Seq<u8>,
    x: AxisView,
    y: AxisView,
) -> bool {
    let cols = image_cols(s);
    let rows = image_rows(s);
    match inflated(font) {
        Err(why) => r matches Err(text) && text@ == "font inflate error: "@ + why,
        Ok(letters) => {
            &&& r matches Ok(img)
            &&& img.cols == cols
            &&& img.rows == rows
            &&& img.bytes@ == rgba_bytes(palette, from_top(picture(s, letters, x, y), cols, rows))
        },
    }
}

/// The PNG file of a spectrogram. `font` is the zlib stream of the font, `tables` the
/// colours that are given, and `waves` holds the sines and cosines of the
/// [`crate::palette::tones`].
pub fn render_png(
    spec: &Spectrogram,
    font: &[u8],
    tables: &Tables,
    waves: &[Double],
    x: &AxisValues,
    y: &AxisValues,
) -> (r: Result<Vec<u8>, String>)
    requires
        drawable(spec@),
        colourful(spec@.cfg),
        encodable(spec@.cfg),
        tables@.serve(spec@.cfg),
        waves@.len() == 3 * spec@.cfg.spectrum_points,
        font_complete(font@),
    ensures
        is_png_of(
            r,
            spec@,
            font@,
            palette_of(spec@.cfg, tables@, waves@),
            time_axis(spec@, *x),
            frequency_axis(spec@, *y),
        ),
{
    let letters = match inflate_font(font) {
        Err(e) => return Err(e),
        Ok(f) => f,
    };
    let (x, y) = axes(spec, x, y);
    let ghost p = picture(spec@, letters@, x@, y@);
    let palette = make_palette(&spec.cfg, tables, waves);
    let img = draw(spec, letters, &x, &y);
    let pixels = top_down(&img, Ghost(p));
    proof {
        let s = spec@;
        assert(palette@ =~= palette_of(s.cfg, tables@, waves@));
        assert(img.cols * img.rows >= 0) by (nonlinear_arith)
            requires
                img.cols >= 0,
                img.rows >= 0,
        ;
        lemma_rows_positive(s);
    }
    encode_png(img.cols as u32, img.rows as u32, palette, pixels.as_slice())
}

/// The PNG file of a spectrogram, or `None` where the font lacks glyphs; see [`render_png`].
pub fn try_render_png(
    spec: &Spectrogram,
    font: &[u8],
    tables: &Tables,
    waves: &[Double],
    x: &AxisValues,
    y: &AxisValues,
) -> (r: Option<Result<Vec<u8>, String>>)
    requires
        drawable(spec@),
        colourful(spec@.cfg),
        encodable(spec@.cfg),
        tables@.serve(spec@.cfg),
        waves@.len() == 3 * spec@.cfg.spectrum_points,
    ensures
        if font_complete(font@) {
            r matches Some(drawn) && is_png_of(
                drawn,
                spec@,
                font@,
                palette_of(spec@.cfg, tables@, waves@),
                time_axis(spec@, *x),
                frequency_axis(spec@, *y),
            )
        } else {
            r is None
        },
{
    if let Ok(letters) = inflate_font(font) {
        if letters.len() < FONT_LEN {
            return None;
        }
    }
    Some(render_png(spec, font, tables, waves, x, y))
}

proof fn lemma_rows_positive(s: SpectrogramView)
    requires
        drawable(s),
    ensures
        image_rows(s) >= 1,
{
    let r = s.rows;
    let k = s.chans as int;
    assert(r * k >= 2) by (nonlinear_arith)
        requires
            r >= 2,
            k >= 1,
    ;
}

/// Byte `k` (red, green, blue and opacity) of a colour of a palette; a colour that is
/// not in it is black.
pub open spec fn rgba_byte(palette: Seq<u8>, index: u8, k: int) -> u8 {
    if k == 3 {
        255
    } else if 3 * index + k < palette.len() {
        palette[3 * index + k]
    } else {
        0
    }
}

/// The pixels of an image as four bytes each.
pub open spec fn rgba_bytes(palette: Seq<u8>, pixels: Seq<u8>) -> Seq<u8> {
    Seq::new(4 * pixels.len(), |n: int| rgba_byte(palette, pixels[n / 4], n % 4))
}

fn palette_at(palette: &Vec<u8>, index: u8, k: usize) -> (b: u8)
    requires
        k < 3,
    ensures
        b == rgba_byte(palette@, index, k as int),
{
    let n: usize = 3 * index as usize + k;
    if n < palette.len() {
        palette[n]
    } else {
        0
    }
}

/// Looks the colours of pixels up.
pub fn to_rgba(palette: &Vec<u8>, pixels: &[u8]) -> (r: Vec<u8>)
    ensures
        r@ == rgba_bytes(palette@, pixels@),
{
    let mut r: Vec<u8> = Vec::new();
    let mut i: usize = 0;
    while i < pixels.len()
        invariant
            i <= pixels@.len(),
            r@ =~= Seq::new(
                (4 * i) as nat,
                |n: int| rgba_byte(palette@, pixels@[n / 4], n % 4),
            ),
        decreases pixels@.len() - i,
    {
        let c: u8 = pixels[i];
        r.push(palette_at(palette, c, 0));
        r.push(palette_at(palette, c, 1));
        r.push(palette_at(palette, c, 2));
        r.push(255);
        i = i + 1;
    }
    assert(r@ =~= rgba_bytes(palette@, pixels@));
    r
}

/// An image of four bytes a pixel, row by row from the top.
#[derive(Debug)]
pub struct Rgba {
    pub cols: u32,
    pub rows: u32,
    pub bytes: Vec<u8>,
}

/// The image of a spectrogram with the same pixels as its PNG file; see [`render_png`].
pub fn render_rgba(
    spec: &Spectrogram,
    font: &[u8],
    tables: &Tables,
    waves: &[Double],
    x: &AxisValues,
    y: &AxisValues,
) -> (r: Result<Rgba, String>)
    requires
        drawable(spec@),
        colourful(spec@.cfg),
        tables@.serve(spec@.cfg),
        waves@.len() == 3 * spec@.cfg.spectrum_points,
        font_complete(font@),
    ensures
        is_rgba_of(
            r,
            spec@,
            font@,
            palette_of(spec@.cfg, tables@, waves@),
            time_axis(spec@, *x),
            frequency_axis(spec@, *y),
        ),
{
    let letters = match inflate_font(font) {
        Err(e) => return Err(e),
        Ok(f) => f,
    };
    let (x, y) = axes(spec, x, y);
    let ghost p = picture(spec@, letters@, x@, y@);
    let palette = make_palette(&spec.cfg, tables, waves);
    let img = draw(spec, letters, &x, &y);
    let pixels = top_down(&img, Ghost(p));
    assert(palette@ =~= palette_of(spec@.cfg, tables@, waves@));
    let bytes = to_rgba(&palette, pixels.as_slice());
    Ok(Rgba { cols: img.cols as u32, rows: img.rows as u32, bytes })
}

/// The image of a spectrogram, or `None` where the font lacks glyphs; see [`render_rgba`].
pub fn try_render_rgba(
    spec: &Spectrogram,
    font: &[u8],
    tables: &Tables,
    waves: &[Double],
    x: &AxisValues,
    y: &AxisValues,
) -> (r: Option<Result<Rgba, String>>)
    requires
        drawable(spec@),
        colourful(spec@.cfg),
        tables@.serve(spec@.cfg),
        waves@.len() == 3 * spec@.cfg.spectrum_points,
    ensures
        if font_complete(font@) {
            r matches Some(drawn) && is_rgba_of(
                drawn,
                spec@,
                font@,
                palette_of(spec@.cfg, tables@, waves@),
                time_axis(spec@, *x),
                frequency_axis(spec@, *y),
            )
        } else {
            r is None
        },
{
    if let Ok(letters) = inflate_font(font) {
        if letters.len() < FONT_LEN {
            return None;
        }
    }
    Some(render_rgba(spec, font, tables, waves, x, y))
}

/// The pixels of an image as four bytes each, in the order of blue, green, red and
/// opacity.
pub open spec fn bgra_bytes(palette: Seq<u8>, pixels: Seq<u8>) -> Seq<u8> {
    Seq::new(
        4 * pixels.len(),
        |n: int|
            {
                let k = n % 4;
                rgba_byte(
                    palette,
                    pixels[n / 4],
                    if k == 0 {
                        2
                    } else if k == 2 {
                        0
                    } else {
                        k
                    },
                )
            },
    )
}

fn to_bgra(palette: &Vec<u8>, pixels: &[u8]) -> (r: Vec<u8>)
    ensures
        r@ == bgra_bytes(palette@, pixels@),
{
    let mut r: Vec<u8> = Vec::new();
    let mut i: usize = 0;
    assert(r@ =~= bgra_bytes(palette@, pixels@).take(0));
    while i < pixels.len()
        invariant
            i <= pixels@.len(),
            r@ =~= bgra_bytes(palette@, pixels@).take(4 * i),
        decreases pixels@.len() - i,
    {
        let c: u8 = pixels[i];
        r.push(palette_at(palette, c, 2));
        r.push(palette_at(palette, c, 1));
        r.push(palette_at(palette, c, 0));
        r.push(255);
        i = i + 1;
    }
    assert(r@ =~= bgra_bytes(palette@, pixels@));
    r
}

/// The levels of a channel as pixels, row by row from the top, on `width` columns; a
/// column that is not there yet has the colour of the background.
pub open spec fn channel_pixels(c: ConfigView, dbfs: Seq<u32>, width: int, rows: int) -> Seq<u8> {
    Seq::new(
        (width * rows) as nat,
        |n: int|
            {
                let place = (n % width) * rows + (rows - 1 - n / width);
                if place < dbfs.len() {
                    colour_of(c, widened(dbfs[place]))
                } else {
                    BACKGROUND
                }
            },
    )
}

/// The levels of a channel as an image of `width` columns, four bytes a pixel in the
/// order of blue, green, red and opacity.
pub fn channel_image(
    cfg: &Config,
    dbfs: &[u32],
    width: i32,
    rows: i32,
    palette: &Vec<u8>,
) -> (bgra: Vec<u8>)
    requires
        0 <= width,
        1 <= rows,
        width * rows <= i32::MAX,
    ensures
        bgra@ == bgra_bytes(
            palette@,
            channel_pixels(cfg@, dbfs@, width as int, rows as int),
        ),
{
    let ghost all = channel_pixels(cfg@, dbfs@, width as int, rows as int);
    assert(width * rows >= 0) by (nonlinear_arith)
        requires
            width >= 0,
            rows >= 0,
    ;
    let size: i32 = width * rows;
    let mut pixels: Vec<u8> = Vec::new();
    let mut n: i32 = 0;
    while n < size
        invariant
            0 <= n <= size,
            size == width * rows,
            0 <= width,
            1 <= rows,
            all == channel_pixels(cfg@, dbfs@, width as int, rows as int),
            pixels@ =~= all.take(n as int),
        decreases size - n,
    {
        proof {
            assert(width > 0) by (nonlinear_arith)
                requires
                    width * rows > 0,
                    width >= 0,
            ;
            lemma_fundamental_div_mod(n as int, width as int);
            let q = n as int / width as int;
            let r = n as int % width as int;
            assert(0 <= q < rows) by (nonlinear_arith)
                requires
                    n == width * q + r,
                    0 <= r < width,
                    0 <= n < width * rows,
            ;
            assert(0 <= r * rows && r * rows + rows <= width * rows) by (nonlinear_arith)
                requires
                    0 <= r,
                    r + 1 <= width,
                    rows >= 1,
            ;
        }
        let place: usize = ((n % width) * rows + (rows - 1 - n / width)) as usize;
        let c: u8 = if place < dbfs.len() {
            colour(cfg, widen_single(dbfs[place]))
        } else {
            BACKGROUND
        };
        pixels.push(c);
        n = n + 1;
    }
    assert(pixels@ =~= all);
    to_bgra(palette, pixels.as_slice())
}

/// The scale of colours as pixels of a single column, from the top of the range down.
pub open spec fn scale_pixels(c: ConfigView, rows: int) -> Seq<u8> {
    Seq::new(rows as nat, |n: int| colour_of(c, scale_level(c, rows - 1 - n, rows)))
}

/// The scale of colours as an image of a single column, four bytes a pixel in the order
/// of blue, green, red and opacity.
pub fn scale_image(cfg: &Config, rows: i32, palette: &Vec<u8>) -> (bgra: Vec<u8>)
    requires
        0 <= rows,
    ensures
        bgra@ == bgra_bytes(palette@, scale_pixels(cfg@, rows as int)),
{
    let range = Double::from_i64(cfg.db_range as i64);
    let last = Double::from_i64(rows as i64 - 1);
    let one = Double::from_i64(1);
    let mut pixels: Vec<u8> = Vec::new();
    let mut n: i32 = 0;
    while n < rows
        invariant
            0 <= n <= rows,
            range == whole(cfg@.db_range),
            last == whole(rows - 1),
            one == whole(1),
            pixels@ =~= scale_pixels(cfg@, rows as int).take(n as int),
        decreases rows - n,
    {
        let j: i32 = rows - 1 - n;
        let level = range.times(Double::from_i64(j as i64).over(last).minus(one));
        pixels.push(colour(cfg, level));
        n = n + 1;
    }
    assert(pixels@ =~= scale_pixels(cfg@, rows as int));
    to_bgra(palette, pixels.as_slice())
}

} // verus!
