//! Pictures: what drawing on an image comes to, place by place.
//!
//! A picture gives every place of the plane a colour. Drawing changes a picture, and
//! an image shows the part of it that it has places for.
use crate::image::{text_inked, Image};
use crate::palette::GRID;
use vstd::prelude::*;
use vstd::string::*;
use vstd::utf8::encode_utf8;

verus! {

/// Whether an image, which has a glyph for every letter, shows a picture.
pub open spec fn shows(img: Image, p: spec_fn(int, int) -> u8) -> bool {
    &&& img.well_formed()
    &&& img.has_glyphs()
    &&& forall|x: int, y: int| img.has(x, y) ==> #[trigger] img.at(x, y) == p(x, y)
}

/// A picture with text at (x, y), to the right.
pub open spec fn lettered(
    p: spec_fn(int, int) -> u8,
    font: Seq<u8>,
    x: int,
    y: int,
    c: u8,
    text: Seq<char>,
) -> spec_fn(int, int) -> u8 {
    |px: int, py: int|
        if text_inked(font, encode_utf8(text), px - x, y - py) {
            c
        } else {
            p(px, py)
        }
}

/// A picture with text at (x, y), up.
pub open spec fn lettered_up(
    p: spec_fn(int, int) -> u8,
    font: Seq<u8>,
    x: int,
    y: int,
    c: u8,
    text: Seq<char>,
) -> spec_fn(int, int) -> u8 {
    |px: int, py: int|
        if text_inked(font, encode_utf8(text), py - y, px - x) {
            c
        } else {
            p(px, py)
        }
}

/// A picture with a line of axis colour in column `x`, over `n` rows from `y` up.
pub open spec fn lined_up(
    p: spec_fn(int, int) -> u8,
    x: int,
    y: int,
    n: int,
) -> spec_fn(int, int) -> u8 {
    |px: int, py: int|
        if px == x && y <= py < y + n {
            GRID
        } else {
            p(px, py)
        }
}

/// A picture with a line of axis colour in row `y`, over `n` columns from `x` on.
pub open spec fn lined_right(
    p: spec_fn(int, int) -> u8,
    x: int,
    y: int,
    n: int,
) -> spec_fn(int, int) -> u8 {
    |px: int, py: int|
        if py == y && x <= px < x + n {
            GRID
        } else {
            p(px, py)
        }
}

/// Writes text to the right.
pub(crate) fn letter(
    img: &mut Image,
    Ghost(p): Ghost<spec_fn(int, int) -> u8>,
    x: i128,
    y: i128,
    c: u8,
    text: &str,
)
    requires
        shows(*old(img), p),
        i128::MIN + 12 <= x,
        i128::MIN + 12 <= y <= i128::MAX - 12,
    ensures
        shows(*final(img), lettered(p, old(img).font@, x as int, y as int, c, text@)),
        final(img).same_frame(*old(img)),
{
    img.write_at(x, y, c, text);
}

/// Writes text up.
pub(crate) fn letter_up(
    img: &mut Image,
    Ghost(p): Ghost<spec_fn(int, int) -> u8>,
    x: i128,
    y: i128,
    c: u8,
    text: &str,
)
    requires
        shows(*old(img), p),
        i128::MIN + 12 <= y,
        i128::MIN + 12 <= x <= i128::MAX - 12,
    ensures
        shows(*final(img), lettered_up(p, old(img).font@, x as int, y as int, c, text@)),
        final(img).same_frame(*old(img)),
{
    img.write_up(x, y, c, text);
}

/// Draws a line of axis colour up.
pub(crate) fn line_up(
    img: &mut Image,
    Ghost(p): Ghost<spec_fn(int, int) -> u8>,
    x: i128,
    y: i128,
    n: i128,
)
    requires
        shows(*old(img), p),
        0 <= n,
        y + n <= i128::MAX,
    ensures
        shows(*final(img), lined_up(p, x as int, y as int, n as int)),
        final(img).same_frame(*old(img)),
{
    let mut i: i128 = 0;
    while i < n
        invariant
            0 <= i <= n,
            y + n <= i128::MAX,
            shows(*img, lined_up(p, x as int, y as int, i as int)),
            img.same_frame(*old(img)),
        decreases n - i,
    {
        img.plot(x, y + i, GRID);
        i = i + 1;
    }
}

/// Draws a line of axis colour to the right.
pub(crate) fn line_right(
    img: &mut Image,
    Ghost(p): Ghost<spec_fn(int, int) -> u8>,
    x: i128,
    y: i128,
    n: i128,
)
    requires
        shows(*old(img), p),
        0 <= n,
        x + n <= i128::MAX,
    ensures
        shows(*final(img), lined_right(p, x as int, y as int, n as int)),
        final(img).same_frame(*old(img)),
{
    let mut i: i128 = 0;
    while i < n
        invariant
            0 <= i <= n,
            x + n <= i128::MAX,
            shows(*img, lined_right(p, x as int, y as int, i as int)),
            img.same_frame(*old(img)),
        decreases n - i,
    {
        img.plot(x + i, y, GRID);
        i = i + 1;
    }
}

} // verus!
