//! What holds of pictures as a whole.
use crate::arith::{negated, whole};
use crate::axis::AxisView;
use crate::config::ConfigView;
use crate::convert::widened;
use crate::legend_laws::law_the_scale_covers_the_range;
use crate::palette::{colour_of, BACKGROUND, FIXED_PALETTE, GRID};
use crate::render::{
    band_rows, bands, bgra_bytes, bottom, channel_pixels, drawable, from_top, image_cols,
    image_rows, left, level_colour, picture, rgba_bytes, scale_pixels,
};
use crate::spectrogram::SpectrogramView;
use vstd::arithmetic::div_mod::{lemma_fundamental_div_mod, lemma_fundamental_div_mod_converse};
use vstd::prelude::*;

verus! {

/// The row that the levels of a channel begin at, the last channel being the lowest.
pub open spec fn channel_bottom(s: SpectrogramView, k: int) -> int {
    bottom(s.cfg) + (s.chans - 1 - k) * (s.rows + 1)
}

/// Every level of every channel has its own pixel: the columns from left to right, the
/// frequencies from the bottom up, the first channel at the top.
pub proof fn law_every_level_has_its_pixel(s: SpectrogramView, k: int, col: int, row: int)
    requires
        drawable(s),
        0 <= k < s.chans,
        0 <= col < s.cols,
        0 <= row < s.rows,
    ensures
        bands(s)(left(s.cfg) + col, channel_bottom(s, k) + row) == level_colour(s, k, col, row),
        bottom(s.cfg) <= channel_bottom(s, k) + row < bottom(s.cfg) + band_rows(s),
{
    let h = s.rows + 1;
    let q = s.chans - 1 - k;
    let y = q * h + row;
    lemma_fundamental_div_mod_converse(y, h, q, row);
    assert(0 <= y < s.rows * s.chans + s.chans - 1) by (nonlinear_arith)
        requires
            y == q * h + row,
            h == s.rows + 1,
            0 <= q <= s.chans - 1,
            0 <= row < s.rows,
    ;
}

/// A raw picture holds the levels and nothing else: no letter, no line, and what stands
/// between two channels is background.
pub proof fn law_raw_pictures_are_levels_alone(
    s: SpectrogramView,
    font: Seq<u8>,
    x: AxisView,
    y: AxisView,
    px: int,
    py: int,
)
    requires
        drawable(s),
        s.cfg.raw,
        0 <= px < image_cols(s),
        0 <= py < image_rows(s),
    ensures
        picture(s, font, x, y)(px, py) == if py % (s.rows + 1) < s.rows {
            level_colour(s, s.chans - 1 - py / (s.rows + 1), px, py % (s.rows + 1))
        } else {
            BACKGROUND
        },
{
}

/// The bytes of a pixel are its colour in the palette, and it is opaque.
pub proof fn law_pixels_are_opaque_colours(palette: Seq<u8>, pixels: Seq<u8>, n: int)
    requires
        0 <= n < pixels.len(),
        3 * pixels[n] + 2 < palette.len(),
    ensures
        rgba_bytes(palette, pixels)[4 * n] == palette[3 * pixels[n]],
        rgba_bytes(palette, pixels)[4 * n + 1] == palette[3 * pixels[n] + 1],
        rgba_bytes(palette, pixels)[4 * n + 2] == palette[3 * pixels[n] + 2],
        rgba_bytes(palette, pixels)[4 * n + 3] == 255,
{
}

/// While levels come in, the columns that are there stay as they are.
pub proof fn law_progress_keeps_columns(
    c: ConfigView,
    early: Seq<u32>,
    late: Seq<u32>,
    width: int,
    rows: int,
    n: int,
)
    requires
        1 <= width,
        1 <= rows,
        0 <= n < width * rows,
        early.len() <= late.len(),
        early == late.take(early.len() as int),
        (n % width + 1) * rows <= early.len(),
    ensures
        channel_pixels(c, early, width, rows)[n] == channel_pixels(c, late, width, rows)[n],
{
    let place = (n % width) * rows + (rows - 1 - n / width);
    assert((n % width + 1) * rows == (n % width) * rows + rows) by (nonlinear_arith);
    assert(0 <= n / width < rows) by (nonlinear_arith)
        requires
            0 <= n < width * rows,
            1 <= width,
    ;
    assert((n % width) * rows >= 0) by (nonlinear_arith)
        requires
            n % width >= 0,
            rows >= 1,
    ;
    assert(early[place] == late.take(early.len() as int)[place]);
}

/// Where column `x` and row `y`, from the bottom, stand in a list of rows from the top.
proof fn lemma_from_the_top(cols: int, rows: int, x: int, y: int)
    requires
        0 <= x < cols,
        0 <= y < rows,
    ensures
        0 <= (rows - 1 - y) * cols + x < cols * rows,
        ((rows - 1 - y) * cols + x) % cols == x,
        ((rows - 1 - y) * cols + x) / cols == rows - 1 - y,
{
    let q = rows - 1 - y;
    let n = q * cols + x;
    assert(0 <= n < cols * rows) by (nonlinear_arith)
        requires
            n == q * cols + x,
            0 <= x < cols,
            0 <= q <= rows - 1,
    ;
    lemma_fundamental_div_mod_converse(n, cols, q, x);
}

/// The pixels of a picture are stored row by row from its top, each row from its left.
pub proof fn law_pictures_are_stored_from_the_top(
    p: spec_fn(int, int) -> u8,
    cols: int,
    rows: int,
    x: int,
    y: int,
)
    requires
        0 <= x < cols,
        0 <= y < rows,
    ensures
        from_top(p, cols, rows).len() == cols * rows,
        from_top(p, cols, rows)[(rows - 1 - y) * cols + x] == p(x, y),
{
    lemma_from_the_top(cols, rows, x, y);
}

/// The image of a channel stands upright: a column of it is a column of levels, the lowest
/// frequency at the bottom; a column without levels yet is background.
pub proof fn law_channel_images_stand_upright(
    c: ConfigView,
    dbfs: Seq<u32>,
    width: int,
    rows: int,
    col: int,
    row: int,
)
    requires
        0 <= col < width,
        0 <= row < rows,
    ensures
        channel_pixels(c, dbfs, width, rows).len() == width * rows,
        col * rows + row < dbfs.len() ==> channel_pixels(c, dbfs, width, rows)[(rows - 1 - row)
            * width + col] == colour_of(c, widened(dbfs[col * rows + row])),
        col * rows + row >= dbfs.len() ==> channel_pixels(c, dbfs, width, rows)[(rows - 1 - row)
            * width + col] == BACKGROUND,
{
    lemma_from_the_top(width, rows, col, row);
}

/// The bytes of a pixel on the screen are its colour with blue first and red last, and it is
/// opaque.
pub proof fn law_pixels_on_the_screen_begin_with_blue(palette: Seq<u8>, pixels: Seq<u8>, n: int)
    requires
        0 <= n < pixels.len(),
        3 * pixels[n] + 2 < palette.len(),
    ensures
        bgra_bytes(palette, pixels).len() == 4 * pixels.len(),
        bgra_bytes(palette, pixels)[4 * n] == palette[3 * pixels[n] + 2],
        bgra_bytes(palette, pixels)[4 * n + 1] == palette[3 * pixels[n] + 1],
        bgra_bytes(palette, pixels)[4 * n + 2] == palette[3 * pixels[n]],
        bgra_bytes(palette, pixels)[4 * n + 3] == 255,
{
}

/// The scale of colours on the screen goes from the last colour at its top down to the level
/// of the whole range, and never up again.
pub proof fn law_the_scale_goes_down(c: ConfigView, rows: int)
    requires
        2 <= rows <= i32::MAX,
        0 <= c.db_range <= i32::MAX,
        2 <= c.spectrum_points <= 252,
    ensures
        scale_pixels(c, rows).len() == rows,
        scale_pixels(c, rows)[0] == FIXED_PALETTE + c.spectrum_points - 1,
        scale_pixels(c, rows)[rows - 1] == colour_of(c, negated(whole(c.db_range))),
{
    law_the_scale_covers_the_range(c, rows);
}

/// An image with its legend is larger than its levels by what stands around them: 58 columns
/// to the left and 86 to the right, 48 rows below and 30 above, and 20 more for a title. A raw
/// image is as large as its levels. Channels lie one row apart.
pub proof fn law_images_have_room_for_their_legend(s: SpectrogramView)
    ensures
        band_rows(s) == s.chans * (s.rows + 1) - 1,
        s.cfg.raw ==> image_cols(s) == s.cols && image_rows(s) == band_rows(s),
        !s.cfg.raw ==> image_cols(s) == s.cols + 144,
        !s.cfg.raw && s.cfg.title is None ==> image_rows(s) == band_rows(s) + 78,
        !s.cfg.raw && s.cfg.title is Some ==> image_rows(s) == band_rows(s) + 98,
        left(s.cfg) == if s.cfg.raw {
            0int
        } else {
            58
        },
        bottom(s.cfg) == if s.cfg.raw {
            0int
        } else {
            48
        },
{
    assert(s.chans * (s.rows + 1) == s.rows * s.chans + s.chans) by (nonlinear_arith);
}

/// Lines of the axes stand around every channel and nowhere else, unless they are not wanted
/// or the image is raw: the row above a channel and the columns beside it.
pub proof fn law_lines_stand_around_the_levels(s: SpectrogramView, px: int, py: int)
    requires
        drawable(s),
        ({
            let x = px - left(s.cfg);
            let y = py - bottom(s.cfg);
            x < 0 || s.cols <= x || y < 0 || band_rows(s) <= y || (y + 1) % (s.rows + 1) == 0
        }),
    ensures
        ({
            let x = px - left(s.cfg);
            let y = py - bottom(s.cfg);
            let lines = !s.cfg.raw && !s.cfg.no_axes;
            let near = -1 <= x <= s.cols && -1 <= y <= band_rows(s);
            bands(s)(px, py) == if lines && near {
                GRID
            } else {
                BACKGROUND
            }
        }),
{
    let y = py - bottom(s.cfg);
    let h = s.rows + 1;
    if 0 <= y && (y + 1) % h == 0 {
        let q = (y + 1) / h;
        lemma_fundamental_div_mod(y + 1, h);
        assert(y == (q - 1) * h + s.rows) by (nonlinear_arith)
            requires
                y + 1 == h * q,
                h == s.rows + 1,
        ;
        lemma_fundamental_div_mod_converse(y, h, q - 1, s.rows);
    }
}

} // verus!
