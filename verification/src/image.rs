//! An image of palette indices, and text on it.
use vstd::prelude::*;
use vstd::string::*;

verus! {

/// Columns of a glyph.
pub const FONT_X: i32 = 5;

/// Rows of a glyph.
pub const FONT_Y: i32 = 12;

/// Columns from a glyph to the next one.
pub const FONT_BIG_X: i32 = 6;

/// The bytes of a font: 96 glyphs, each of 12 rows.
pub const FONT_LEN: usize = 1152;

/// An image of palette indices. Row 0 is the lowest.
#[derive(Debug)]
pub struct Image {
    pub cols: i32,
    pub rows: i32,
    /// Row by row, from the lowest up.
    pub pixels: Vec<u8>,
    /// A byte for each row of each glyph, its columns from the highest bit down.
    pub font: Vec<u8>,
}

impl Image {
    /// Whether the image has a pixel for every place.
    pub open spec fn well_formed(self) -> bool {
        &&& 0 <= self.cols
        &&& 0 <= self.rows
        &&& self.cols * self.rows <= i32::MAX
        &&& self.pixels@.len() == self.cols * self.rows
    }

    /// Whether the image has a glyph for every letter.
    pub open spec fn has_glyphs(self) -> bool {
        self.font@.len() >= FONT_LEN
    }

    /// Whether the image has a place.
    pub open spec fn has(self, x: int, y: int) -> bool {
        0 <= x < self.cols && 0 <= y < self.rows
    }

    /// The pixel at a place.
    pub open spec fn at(self, x: int, y: int) -> u8 {
        self.pixels@[y * self.cols + x]
    }

    /// Whether the image differs from another one in its pixels alone.
    pub open spec fn same_frame(self, other: Image) -> bool {
        &&& self.cols == other.cols
        &&& self.rows == other.rows
        &&& self.font == other.font
        &&& self.well_formed()
    }

    /// An image of one colour.
    pub fn blank(cols: i32, rows: i32, c: u8, font: Vec<u8>) -> (img: Image)
        requires
            0 <= cols,
            0 <= rows,
            cols * rows <= i32::MAX,
        ensures
            img.well_formed(),
            img.cols == cols,
            img.rows == rows,
            img.font == font,
            forall|x: int, y: int| img.has(x, y) ==> #[trigger] img.at(x, y) == c,
    {
        proof {
            assert(cols * rows >= 0) by (nonlinear_arith)
                requires
                    cols >= 0,
                    rows >= 0,
            ;
        }
        let n: i32 = cols * rows;
        let mut pixels: Vec<u8> = Vec::new();
        let mut i: i32 = 0;
        while i < n
            invariant
                0 <= i <= n,
                pixels@.len() == i,
                forall|k: int| 0 <= k < i ==> pixels@[k] == c,
            decreases n - i,
        {
            pixels.push(c);
            i = i + 1;
        }
        let img = Image { cols, rows, pixels, font };
        proof {
            assert forall|x: int, y: int| img.has(x, y) implies #[trigger] img.at(x, y) == c by {
                lemma_place(x, y, cols as int, rows as int);
            }
        }
        img
    }

    /// Sets a pixel; one outside of the image is left alone.
    pub fn set(&mut self, x: i32, y: i32, c: u8)
        requires
            old(self).well_formed(),
        ensures
            final(self).same_frame(*old(self)),
            forall|px: int, py: int|
                old(self).has(px, py) ==> #[trigger] final(self).at(px, py) == if px == x && py
                    == y {
                    c
                } else {
                    old(self).at(px, py)
                },
    {
        self.plot(x as i128, y as i128, c);
    }

    /// Sets a pixel, as [`Image::set`] does, wherever it is.
    pub fn plot(&mut self, x: i128, y: i128, c: u8)
        requires
            old(self).well_formed(),
        ensures
            final(self).same_frame(*old(self)),
            forall|px: int, py: int|
                old(self).has(px, py) ==> #[trigger] final(self).at(px, py) == if px == x && py
                    == y {
                    c
                } else {
                    old(self).at(px, py)
                },
    {
        if x >= 0 && x < self.cols as i128 && y >= 0 && y < self.rows as i128 {
            proof {
                lemma_place(x as int, y as int, self.cols as int, self.rows as int);
                assert(0 <= y * self.cols) by (nonlinear_arith)
                    requires
                        0 <= y,
                        0 <= self.cols,
                ;
            }
            let place: usize = (y as i32 * self.cols + x as i32) as usize;
            self.pixels.set(place, c);
            proof {
                assert forall|px: int, py: int| old(self).has(px, py) implies #[trigger] self.at(
                    px,
                    py,
                ) == if px == x && py == y {
                    c
                } else {
                    old(self).at(px, py)
                } by {
                    lemma_place(px, py, self.cols as int, self.rows as int);
                    if py * self.cols + px == y * self.cols + x {
                        lemma_places_differ(px, py, x as int, y as int, self.cols as int);
                    }
                }
            }
        }
    }
}

/// The place of a pixel in a list of rows.
pub proof fn lemma_place(x: int, y: int, cols: int, rows: int)
    requires
        0 <= x < cols,
        0 <= y < rows,
    ensures
        0 <= y * cols + x < cols * rows,
{
    assert(0 <= y * cols) by (nonlinear_arith)
        requires
            0 <= y,
            0 <= cols,
    ;
    assert(y * cols + cols <= cols * rows) by (nonlinear_arith)
        requires
            y + 1 <= rows,
            0 <= cols,
    ;
}

/// Two places are the same only if their columns and rows are.
proof fn lemma_places_differ(px: int, py: int, x: int, y: int, cols: int)
    requires
        0 <= px < cols,
        0 <= x < cols,
        py * cols + px == y * cols + x,
    ensures
        px == x,
        py == y,
{
    assert(py == y) by (nonlinear_arith)
        requires
            0 <= px < cols,
            0 <= x < cols,
            py * cols + px == y * cols + x,
    ;
}

/// The glyph of a byte; the last one stands for all that cannot be shown.
pub open spec fn glyph(ch: u8) -> int {
    if 32 <= ch <= 126 {
        ch - 32
    } else {
        95
    }
}

/// The glyph of a byte.
pub fn glyph_index(ch: u8) -> (g: usize)
    ensures
        g == glyph(ch),
{
    if ch < 32 || ch > 126 {
        95
    } else {
        (ch - 32) as usize
    }
}

/// Two to the power of `7 - j`.
pub open spec fn column_bit(j: int) -> int {
    if j == 0 {
        128
    } else if j == 1 {
        64
    } else if j == 2 {
        32
    } else if j == 3 {
        16
    } else {
        8
    }
}

/// Whether the glyph of a byte has ink in row `i`, from the top, and column `j`.
pub open spec fn inked(font: Seq<u8>, ch: u8, i: int, j: int) -> bool {
    (font[glyph(ch) * 12 + i] as int / column_bit(j)) % 2 == 1
}

/// Whether text that starts in column 0 has ink `right` columns to the right and
/// `down` rows below its top.
pub open spec fn text_inked(font: Seq<u8>, text: Seq<u8>, right: int, down: int) -> bool {
    let k = right / 6;
    let j = right % 6;
    &&& 0 <= right
    &&& k < text.len()
    &&& j < 5
    &&& 0 <= down < 12
    &&& inked(font, text[k], down, j)
}

impl Image {
    /// Draws the glyph of a byte, its columns to the right and its rows down, or, if
    /// `up`, its columns up and its rows to the right.
    fn print_glyph(&mut self, x: i128, y: i128, c: u8, ch: u8, up: bool)
        requires
            old(self).well_formed(),
            old(self).has_glyphs(),
            i128::MIN + 12 <= y <= i128::MAX - 12,
            i128::MIN + 12 <= x <= i128::MAX - 12,
        ensures
            final(self).same_frame(*old(self)),
            forall|px: int, py: int|
                old(self).has(px, py) ==> #[trigger] final(self).at(px, py) == {
                    let (j, i) = if up {
                        (py - y, px - x)
                    } else {
                        (px - x, y - py)
                    };
                    if 0 <= j < 5 && 0 <= i < 12 && inked(old(self).font@, ch, i, j) {
                        c
                    } else {
                        old(self).at(px, py)
                    }
                },
    {
        let ghost font = self.font@;
        let start: usize = glyph_index(ch) * 12;
        let mut i: i128 = 0;
        while i < 12
            invariant
                0 <= i <= 12,
                start == glyph(ch) * 12,
                start + 12 <= font.len(),
                font == old(self).font@,
                i128::MIN + 12 <= y <= i128::MAX - 12,
                i128::MIN + 12 <= x <= i128::MAX - 12,
                self.same_frame(*old(self)),
                self.has_glyphs(),
                forall|px: int, py: int|
                    old(self).has(px, py) ==> #[trigger] self.at(px, py) == {
                        let (dj, di) = if up {
                            (py - y, px - x)
                        } else {
                            (px - x, y - py)
                        };
                        if 0 <= dj < 5 && 0 <= di < i && inked(font, ch, di, dj) {
                            c
                        } else {
                            old(self).at(px, py)
                        }
                    },
            decreases 12 - i,
        {
            let line: u32 = self.font[start + i as usize] as u32;
            let mut bit: u32 = 128;
            let mut j: i128 = 0;
            while j < 5
                invariant
                    0 <= i < 12,
                    0 <= j <= 5,
                    j < 5 ==> bit == column_bit(j as int),
                    j == 5 ==> bit == 4,
                    start == glyph(ch) * 12,
                    line == font[start + i],
                    font == old(self).font@,
                    i128::MIN + 12 <= y <= i128::MAX - 12,
                    i128::MIN + 12 <= x <= i128::MAX - 12,
                    self.same_frame(*old(self)),
                self.has_glyphs(),
                    forall|px: int, py: int|
                        old(self).has(px, py) ==> #[trigger] self.at(px, py) == {
                            let (dj, di) = if up {
                                (py - y, px - x)
                            } else {
                                (px - x, y - py)
                            };
                            if 0 <= dj < 5 && 0 <= di && (di < i || (di == i && dj < j)) && inked(
                                font,
                                ch,
                                di,
                                dj,
                            ) {
                                c
                            } else {
                                old(self).at(px, py)
                            }
                        },
                decreases 5 - j,
            {
                if (line / bit) % 2 == 1 {
                    if up {
                        self.plot(x + i, y + j, c);
                    } else {
                        self.plot(x + j, y - i, c);
                    }
                }
                bit = bit / 2;
                j = j + 1;
            }
            i = i + 1;
        }
    }

    /// Writes text from (x, y) to the right, with its top at `y`.
    pub fn print_at(&mut self, x: i32, y: i32, c: u8, text: &str)
        requires
            old(self).well_formed(),
            old(self).has_glyphs(),
        ensures
            final(self).same_frame(*old(self)),
            forall|px: int, py: int|
                old(self).has(px, py) ==> #[trigger] final(self).at(px, py) == if text_inked(
                    old(self).font@,
                    text.spec_bytes(),
                    px - x,
                    y - py,
                ) {
                    c
                } else {
                    old(self).at(px, py)
                },
    {
        self.write_at(x as i128, y as i128, c, text);
    }

    /// Writes text to the right, as [`Image::print_at`] does, wherever it is.
    pub fn write_at(&mut self, x: i128, y: i128, c: u8, text: &str)
        requires
            old(self).well_formed(),
            old(self).has_glyphs(),
            i128::MIN + 12 <= x,
            i128::MIN + 12 <= y <= i128::MAX - 12,
        ensures
            final(self).same_frame(*old(self)),
            forall|px: int, py: int|
                old(self).has(px, py) ==> #[trigger] final(self).at(px, py) == if text_inked(
                    old(self).font@,
                    text.spec_bytes(),
                    px - x,
                    y - py,
                ) {
                    c
                } else {
                    old(self).at(px, py)
                },
    {
        let bytes = text.as_bytes();
        let ghost font = self.font@;
        let mut k: usize = 0;
        let mut at: i128 = x;
        while k < bytes.len() && at < self.cols as i128
            invariant
                k <= bytes@.len(),
                i128::MIN + 12 <= x,
                at == x + 6 * k,
                i128::MIN + 12 <= y <= i128::MAX - 12,
                font == old(self).font@,
                self.same_frame(*old(self)),
                self.has_glyphs(),
                forall|px: int, py: int|
                    old(self).has(px, py) ==> #[trigger] self.at(px, py) == if px < at && text_inked(
                        font,
                        bytes@,
                        px - x,
                        y - py,
                    ) {
                        c
                    } else {
                        old(self).at(px, py)
                    },
            decreases bytes@.len() - k,
        {
            self.print_glyph(at, y, c, bytes[k], false);
            at = at + 6;
            k = k + 1;
        }
    }

    /// Writes text from (x, y) up, with its top at `x`.
    pub fn print_up(&mut self, x: i32, y: i32, c: u8, text: &str)
        requires
            old(self).well_formed(),
            old(self).has_glyphs(),
        ensures
            final(self).same_frame(*old(self)),
            forall|px: int, py: int|
                old(self).has(px, py) ==> #[trigger] final(self).at(px, py) == if text_inked(
                    old(self).font@,
                    text.spec_bytes(),
                    py - y,
                    px - x,
                ) {
                    c
                } else {
                    old(self).at(px, py)
                },
    {
        self.write_up(x as i128, y as i128, c, text);
    }

    /// Writes text up, as [`Image::print_up`] does, wherever it is.
    pub fn write_up(&mut self, x: i128, y: i128, c: u8, text: &str)
        requires
            old(self).well_formed(),
            old(self).has_glyphs(),
            i128::MIN + 12 <= y,
            i128::MIN + 12 <= x <= i128::MAX - 12,
        ensures
            final(self).same_frame(*old(self)),
            forall|px: int, py: int|
                old(self).has(px, py) ==> #[trigger] final(self).at(px, py) == if text_inked(
                    old(self).font@,
                    text.spec_bytes(),
                    py - y,
                    px - x,
                ) {
                    c
                } else {
                    old(self).at(px, py)
                },
    {
        let bytes = text.as_bytes();
        let ghost font = self.font@;
        let mut k: usize = 0;
        let mut at: i128 = y;
        while k < bytes.len() && at < self.rows as i128
            invariant
                k <= bytes@.len(),
                i128::MIN + 12 <= y,
                at == y + 6 * k,
                i128::MIN + 12 <= x <= i128::MAX - 12,
                font == old(self).font@,
                self.same_frame(*old(self)),
                self.has_glyphs(),
                forall|px: int, py: int|
                    old(self).has(px, py) ==> #[trigger] self.at(px, py) == if py < at && text_inked(
                        font,
                        bytes@,
                        py - y,
                        px - x,
                    ) {
                        c
                    } else {
                        old(self).at(px, py)
                    },
            decreases bytes@.len() - k,
        {
            self.print_glyph(x, at, c, bytes[k], true);
            at = at + 6;
            k = k + 1;
        }
    }
}

} // verus!
