//! Where texts and ticks stand on a picture.
use crate::axis::AxisView;
use crate::canvas::{lettered, lettered_up};
use crate::image::{column_bit, glyph, text_inked};
use crate::legend::{commented, halved, text_cols, tick_place, titled, x_tick};
use crate::palette::{GRID, TEXT};
use crate::render::band_rows;
use crate::spectrogram::SpectrogramView;
use vstd::arithmetic::div_mod::lemma_fundamental_div_mod_converse;
use vstd::prelude::*;
use vstd::utf8::encode_utf8;

verus! {

/// The letters of a text are six columns apart, five columns wide and twelve rows high, and
/// have ink where the byte for a row of their glyph has a bit, the first column being the
/// highest one. Glyphs are those of the bytes from the space on; the last one stands for any
/// other byte.
pub proof fn law_letters_are_their_glyphs(font: Seq<u8>, text: Seq<u8>, k: int, i: int, j: u8)
    requires
        0 <= k < text.len(),
        0 <= i < 12,
        j < 6,
    ensures
        j < 5 ==> (text_inked(font, text, 6 * k + j, i) <==> font[glyph(text[k]) * 12 + i] & (0x80u8
            >> j) != 0),
        j == 5 ==> !text_inked(font, text, 6 * k + j, i),
        ' ' as u8 <= text[k] <= '~' as u8 ==> glyph(text[k]) == text[k] - ' ' as u8,
        text[k] < ' ' as u8 || text[k] > '~' as u8 ==> glyph(text[k]) == '~' as u8 - ' ' as u8 + 1,
{
    lemma_fundamental_div_mod_converse(6 * k + j, 6, k, j as int);
    assert(' ' as u8 == 32 && '~' as u8 == 126);
    let b = font[glyph(text[k]) * 12 + i];
    if j < 5 {
        lemma_bits(b, j);
    }
}

/// A bit of a byte, by division.
proof fn lemma_bits(b: u8, j: u8)
    requires
        j < 5,
    ensures
        (b & (0x80u8 >> j) != 0) <==> (b as int / column_bit(j as int)) % 2 == 1,
{
    assert(b & (0x80u8 >> 0u8) != 0 <==> (b / 128) % 2 == 1) by (bit_vector);
    assert(b & (0x80u8 >> 1u8) != 0 <==> (b / 64) % 2 == 1) by (bit_vector);
    assert(b & (0x80u8 >> 2u8) != 0 <==> (b / 32) % 2 == 1) by (bit_vector);
    assert(b & (0x80u8 >> 3u8) != 0 <==> (b / 16) % 2 == 1) by (bit_vector);
    assert(b & (0x80u8 >> 4u8) != 0 <==> (b / 8) % 2 == 1) by (bit_vector);
}

/// A text changes pixels within its box alone, and gives them its colour: to the right of
/// where it begins and below it, or, for one that goes up, above it and to the right.
pub proof fn law_texts_stay_in_their_box(
    p: spec_fn(int, int) -> u8,
    font: Seq<u8>,
    x: int,
    y: int,
    c: u8,
    text: Seq<char>,
    px: int,
    py: int,
)
    ensures
        lettered(p, font, x, y, c, text)(px, py) == p(px, py) || lettered(p, font, x, y, c, text)(
            px,
            py,
        ) == c,
        lettered(p, font, x, y, c, text)(px, py) != p(px, py) ==> x <= px < x + text_cols(text) && y
            - 12 < py <= y,
        lettered_up(p, font, x, y, c, text)(px, py) == p(px, py) || lettered_up(
            p,
            font,
            x,
            y,
            c,
            text,
        )(px, py) == c,
        lettered_up(p, font, x, y, c, text)(px, py) != p(px, py) ==> y <= py < y + text_cols(text)
            && x <= px < x + 12,
{
    let b = encode_utf8(text);
    lemma_inked_within(font, b, px - x, y - py);
    lemma_inked_within(font, b, py - y, px - x);
}

proof fn lemma_inked_within(font: Seq<u8>, text: Seq<u8>, right: int, down: int)
    ensures
        text_inked(font, text, right, down) ==> 0 <= right < 6 * text.len() && 0 <= down < 12,
{
}

/// A title that fits stands in the middle of the image, to within half a column, in the rows
/// from 23 to 12 below its height; one that does not fit is left out. A comment that fits
/// begins in column 1, in the lowest rows but one, and one that does not fit is left out.
pub proof fn law_titles_and_comments_have_their_places(
    p: spec_fn(int, int) -> u8,
    font: Seq<u8>,
    text: Seq<char>,
    cols: int,
    rows: int,
    px: int,
    py: int,
)
    requires
        0 <= cols,
    ensures
        ({
            let width = text_cols(text);
            let from = halved(cols - width);
            let t = titled(p, font, Some(text), cols, rows);
            let c = commented(p, font, text, cols);
            &&& width > cols ==> t == p && c == p
            &&& width <= cols ==> 0 <= from && from + width <= cols && cols - 1 <= 2 * from + width
                <= cols
            &&& t(px, py) != p(px, py) ==> from <= px < from + width && rows - 24 < py <= rows - 12
                && t(px, py) == TEXT
            &&& c(px, py) != p(px, py) ==> 1 <= px < 1 + width && 1 <= py <= 12 && c(px, py) == TEXT
            &&& titled(p, font, None, cols, rows) == p
        }),
{
    let width = text_cols(text);
    law_texts_stay_in_their_box(
        p,
        font,
        halved(cols - width),
        rows - 12,
        TEXT,
        text,
        px,
        py,
    );
    law_texts_stay_in_their_box(p, font, 1, 12, TEXT, text, px, py);
}

/// A tick of the time axis is marked below the levels and above them, at its place, with a
/// line of three pixels, or of two where there are no lines around the levels; its label does
/// not cover it.
pub proof fn law_times_are_marked_on_both_sides(
    p: spec_fn(int, int) -> u8,
    font: Seq<u8>,
    s: SpectrogramView,
    axis: AxisView,
    i: int,
    d: int,
)
    requires
        0 <= d < if s.cfg.no_axes {
            2int
        } else {
            3int
        },
        1 <= band_rows(s),
    ensures
        x_tick(p, font, s, axis, i)(57 + tick_place(i, axis.limit, s.cols), 47 - d) == GRID,
        x_tick(p, font, s, axis, i)(
            57 + tick_place(i, axis.limit, s.cols),
            48 + band_rows(s) + d,
        ) == GRID,
{
}

} // verus!
