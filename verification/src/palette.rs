//! Colours: which one a level has, and what the colours are.
use crate::arith::{difference, negated, product, quotient, saturated, sum, whole, whole_part};
use crate::bounds::{
    and_half, lemma_fraction_at_most_one, lemma_half, lemma_nearest_at_most, lemma_nearest_monotone,
    lemma_part_at_most, lemma_scaled_monotone, lemma_sum_at_least, lemma_sum_at_most, lemma_whole,
    lemma_whole_and_half, lemma_whole_part_between, plain,
};
use crate::config::{Config, ConfigView, ALT_PALETTE_LEN};
use crate::double::{lemma_scaled_increases, scaled, Double};
use crate::gradient::{Palette, GRADIENTS_BYTES, GRADIENT_LEN};
use crate::rounding::nearest;
use crate::timeparse::half;
use crate::window::{fraction, pi, ratio, PI_BITS};
use vstd::arithmetic::div_mod::lemma_div_is_ordered;
use vstd::arithmetic::power2::{lemma_pow2_pos, pow2};
use vstd::prelude::*;

verus! {

/// The background.
pub const BACKGROUND: u8 = 0;

/// Titles.
pub const TEXT: u8 = 1;

/// The labels of ticks.
pub const LABELS: u8 = 2;

/// Axes and ticks.
pub const GRID: u8 = 3;

/// The colours before those of levels.
pub const FIXED_PALETTE: i32 = 4;

/// The step of a level `x` on the scale of colours, from 0 for one below the range to
/// `spectrum_points - 1` for one at the top of it.
pub open spec fn colour_step(c: ConfigView, x: Double) -> int {
    if x.less(negated(whole(c.db_range))) {
        0
    } else if whole(0).at_most(x) {
        c.spectrum_points - 1
    } else {
        saturated(
            whole_part(
                sum(
                    whole(1),
                    product(
                        sum(whole(1), quotient(x, whole(c.db_range))),
                        whole(c.spectrum_points - 2),
                    ),
                ),
            ),
            i32::MIN as int,
            i32::MAX as int,
        )
    }
}

/// The colour of a level.
pub open spec fn colour_of(c: ConfigView, x: Double) -> u8 {
    ((FIXED_PALETTE + colour_step(c, x)) % 256) as u8
}

/// The colour of a level.
pub fn colour(cfg: &Config, x: Double) -> (index: u8)
    ensures
        index == colour_of(cfg@, x),
{
    let range = Double::from_i64(cfg.db_range as i64);
    let bottom = range.negate();
    proof {
        assert(bottom == negated(whole(cfg.db_range as int)));
    }
    let step: i64 = if x.lt(bottom) {
        0
    } else if Double::from_i64(0).le(x) {
        cfg.spectrum_points as i64 - 1
    } else {
        let one = Double::from_i64(1);
        let points = Double::from_i64(cfg.spectrum_points as i64 - 2);
        one.plus(one.plus(x.over(range)).times(points)).to_i32() as i64
    };
    let n: i64 = (FIXED_PALETTE as i64 + step) % 256;
    if n < 0 {
        (n + 256) as u8
    } else {
        n as u8
    }
}

/// A component of a colour: a level from 0 to 1, or a wave of an angle.
#[derive(Clone, Copy, Debug, PartialEq, Eq, Structural)]
pub enum Tone {
    Level(Double),
    /// The sine of an angle.
    Sine(Double),
    /// Half the sine of an angle.
    HalfSine(Double),
    /// The cosine of an angle.
    Cosine(Double),
}

impl Tone {
    /// The component, `wave` being the sine or cosine of the angle.
    pub open spec fn amount(self, wave: Double) -> Double {
        match self {
            Tone::Level(v) => v,
            Tone::Sine(_) => wave,
            Tone::HalfSine(_) => product(half(), wave),
            Tone::Cosine(_) => wave,
        }
    }

    /// The component, `wave` being the sine or cosine of the angle.
    pub fn value(self, wave: Double) -> (v: Double)
        ensures
            v == self.amount(wave),
    {
        match self {
            Tone::Level(v) => v,
            Tone::Sine(_) => wave,
            Tone::HalfSine(_) => fraction(1, 2).times(wave),
            Tone::Cosine(_) => wave,
        }
    }
}

/// Where colour `i` stands on the scale, from 0 to 1.
pub open spec fn scale_place(c: ConfigView, i: int) -> Double {
    quotient(whole(i), whole(c.spectrum_points - 1))
}

/// A shade that begins at four tenths of the scale.
pub open spec fn late_grey(x: Double) -> Double {
    if x.less(ratio(4, 10)) {
        whole(0)
    } else {
        product(ratio(5, 3), difference(x, ratio(4, 10)))
    }
}

/// Component `j` of a grey, or in high colour of a tinted one.
pub open spec fn mono_tone(c: ConfigView, x: Double, j: int) -> Tone {
    if c.high_colour && (j == (1 + c.perm) % 3 || (c.perm < 3 && j == (2 + c.perm) % 3)) {
        Tone::Level(late_grey(x))
    } else {
        Tone::Level(x)
    }
}

/// What component `j` does in each of the seven phases of high colour: nothing (0),
/// full (1), a rising (2) or a falling wave (3), or a rising (4) or a falling (5)
/// line.
pub open spec fn phase_state(j: int, phase: int) -> int {
    if j == 0 {
        if phase == 0 {
            4
        } else if phase == 1 {
            5
        } else if phase == 4 {
            2
        } else if phase == 5 || phase == 6 {
            1
        } else {
            0
        }
    } else if j == 1 {
        if phase == 2 || phase == 6 {
            2
        } else if phase == 3 || phase == 4 {
            1
        } else if phase == 5 {
            3
        } else {
            0
        }
    } else {
        if phase == 0 {
            4
        } else if phase == 1 || phase == 2 {
            1
        } else if phase == 3 {
            3
        } else if phase == 6 {
            2
        } else {
            0
        }
    }
}

/// The phase of high colour at a place on the scale.
pub open spec fn phase_at(x: Double) -> int {
    let n = saturated(whole_part(product(whole(7), x)), i32::MIN as int, i32::MAX as int);
    if n > 6 {
        6
    } else {
        n
    }
}

/// Component `j` of a high colour.
pub open spec fn high_tone(x: Double, j: int) -> Tone {
    let phase = phase_at(x);
    let along = difference(product(whole(7), x), whole(phase));
    let angle = quotient(product(along, pi()), whole(2));
    let state = phase_state(j, phase);
    if state == 0 {
        Tone::Level(whole(0))
    } else if state == 1 {
        Tone::Level(whole(1))
    } else if state == 2 {
        Tone::Sine(angle)
    } else if state == 3 {
        Tone::Cosine(angle)
    } else if state == 4 {
        Tone::Level(along)
    } else {
        Tone::Level(difference(whole(1), along))
    }
}

/// Colours that are given by tables, three bytes a colour.
#[derive(Debug)]
pub struct Tables {
    /// The alternative palette.
    pub alt: Vec<u8>,
    /// The gradients but for the usual one, one after another.
    pub gradients: Vec<u8>,
}

/// The model of tables of colours.
#[verifier::ext_equal]
pub struct TablesView {
    pub alt: Seq<u8>,
    pub gradients: Seq<u8>,
}

impl View for Tables {
    type V = TablesView;

    open spec fn view(&self) -> TablesView {
        TablesView { alt: self.alt@, gradients: self.gradients@ }
    }
}

impl TablesView {
    /// Whether the tables hold every colour that the options ask for.
    pub open spec fn serve(self, c: ConfigView) -> bool {
        &&& c.alt_palette ==> self.alt.len() == 3 * ALT_PALETTE_LEN
        &&& c.palette != Palette::Sox ==> self.gradients.len() == GRADIENTS_BYTES
    }
}

/// The colour of a table of `len` colours that stands at a place on the scale.
pub open spec fn table_index(x: Double, len: int) -> int {
    saturated(
        whole_part(sum(product(x, whole(len - 1)), half())),
        i32::MIN as int,
        i32::MAX as int,
    )
}

/// A component that is given by a byte.
pub open spec fn byte_tone(byte: u8) -> Tone {
    Tone::Level(quotient(whole(byte as int), whole(255)))
}

/// Component `j` of a colour of the alternative palette.
pub open spec fn alt_tone(alt: Seq<u8>, x: Double, j: int) -> Tone {
    byte_tone(alt[3 * table_index(x, ALT_PALETTE_LEN as int) + j])
}

/// Component `j` of a colour of a gradient that is given by a table.
pub open spec fn gradient_tone(gradients: Seq<u8>, p: Palette, x: Double, j: int) -> Tone {
    let start = 3 * GRADIENT_LEN * (p.place() - 1);
    byte_tone(gradients[start + 3 * table_index(x, GRADIENT_LEN as int) + j])
}

/// A wave that rises over `width` from `from` on.
pub open spec fn rise(x: Double, from: Double, width: Double) -> Tone {
    Tone::Sine(quotient(product(quotient(difference(x, from), width), pi()), whole(2)))
}

/// Component `j` of an ordinary colour.
pub open spec fn usual_tone(x: Double, j: int) -> Tone {
    if j == 0 {
        if x.less(ratio(13, 100)) {
            Tone::Level(whole(0))
        } else if x.less(ratio(73, 100)) {
            rise(x, ratio(13, 100), ratio(60, 100))
        } else {
            Tone::Level(whole(1))
        }
    } else if j == 1 {
        if x.less(ratio(60, 100)) {
            Tone::Level(whole(0))
        } else if x.less(ratio(91, 100)) {
            rise(x, ratio(60, 100), ratio(31, 100))
        } else {
            Tone::Level(whole(1))
        }
    } else {
        if x.less(ratio(60, 100)) {
            Tone::HalfSine(product(quotient(difference(x, whole(0)), ratio(60, 100)), pi()))
        } else if x.less(ratio(78, 100)) {
            Tone::Level(whole(0))
        } else {
            Tone::Level(quotient(difference(x, ratio(78, 100)), ratio(22, 100)))
        }
    }
}

/// The component that stands for component `k` (red, green or blue) in a
/// permutation.
pub open spec fn permuted(perm: int, k: int) -> int {
    if k == 0 {
        perm % 3
    } else if k == 1 {
        (1 + perm + perm % 2) % 3
    } else {
        (2 + perm - perm % 2) % 3
    }
}

/// Component `k` (red, green or blue) of colour `i` on the scale. Where the options
/// ask for neither a grey scale, nor high colour, nor the alternative palette, the
/// colours are those of the gradient.
#[verifier::opaque]
pub open spec fn tone_of(c: ConfigView, tables: TablesView, i: int, k: int) -> Tone {
    let x = scale_place(c, i);
    if c.monochrome {
        mono_tone(c, x, k)
    } else {
        let j = permuted(c.perm, k);
        if c.high_colour {
            high_tone(x, j)
        } else if c.alt_palette {
            alt_tone(tables.alt, x, j)
        } else if c.palette != Palette::Sox {
            gradient_tone(tables.gradients, c.palette, x, j)
        } else {
            usual_tone(x, j)
        }
    }
}

/// The byte of a component.
pub open spec fn quantised(v: Double) -> u8 {
    saturated(whole_part(sum(half(), product(whole(255), v))), 0, 255) as u8
}

/// Whether a palette can stand in a file: it holds no more bytes than one part of it may.
pub open spec fn encodable(c: ConfigView) -> bool {
    3 * (FIXED_PALETTE + c.spectrum_points) <= i32::MAX
}

/// Whether the options make a palette.
pub open spec fn colourful(c: ConfigView) -> bool {
    &&& 2 <= c.spectrum_points <= i32::MAX - FIXED_PALETTE
    &&& 0 <= c.perm <= i32::MAX - 2
}

fn quantise(v: Double) -> (b: u8)
    ensures
        b == quantised(v),
{
    let n = fraction(1, 2).plus(Double::from_i64(255).times(v)).to_i32();
    if n < 0 {
        0
    } else if n > 255 {
        255
    } else {
        n as u8
    }
}

proof fn lemma_table_index(i: int, n: int, top: int)
    requires
        0 <= i <= n,
        1 <= n <= i32::MAX,
        1 <= top <= 255,
    ensures
        0 <= table_index(quotient(whole(i), whole(n)), top + 1) <= top,
{
    let x = quotient(whole(i), whole(n));
    lemma_fraction_at_most_one(i, n);
    lemma_part_at_most(x, top);
    let p = product(x, whole(top));
    let most = and_half(top);
    let unit = pow2(1074) as int;
    lemma_whole(top);
    lemma_half();
    lemma_whole_and_half(top);
    lemma_pow2_pos(1074);
    if p.magnitude() < whole(top).magnitude() {
        lemma_scaled_increases(p.magnitude(), whole(top).magnitude());
    }
    assert(scaled(p.magnitude()) <= top * unit);
    assert(2 * scaled(half().magnitude()) == unit);
    assert(2 * scaled(most.magnitude()) == (2 * top + 1) * unit);
    assert((2 * top + 1) * unit == 2 * (top * unit) + unit) by (nonlinear_arith);
    assert((top + 1) * unit == top * unit + unit) by (nonlinear_arith);
    lemma_sum_at_most(p, half(), most);
    let s = sum(p, half());
    if s.magnitude() < most.magnitude() {
        lemma_scaled_increases(s.magnitude(), most.magnitude());
    }
    assert(scaled(s.magnitude()) < (top + 1) * unit);
    assert(0 * unit == 0);
    lemma_whole_part_between(s, 0, top as nat);
}

fn mono(cfg: &Config, x: Double, j: i32) -> (t: Tone)
    requires
        colourful(cfg@),
        0 <= j < 3,
    ensures
        t == mono_tone(cfg@, x, j as int),
{
    if cfg.high_colour && (j == (1 + cfg.perm) % 3 || (cfg.perm < 3 && j == (2 + cfg.perm) % 3)) {
        let from = fraction(4, 10);
        if x.lt(from) {
            Tone::Level(Double::from_i64(0))
        } else {
            Tone::Level(fraction(5, 3).times(x.minus(from)))
        }
    } else {
        Tone::Level(x)
    }
}

fn high(x: Double, j: i32) -> (t: Tone)
    requires
        0 <= j < 3,
    ensures
        t == high_tone(x, j as int),
{
    let seven = Double::from_i64(7).times(x);
    let n = seven.to_i32();
    let phase: i32 = if n > 6 {
        6
    } else {
        n
    };
    let along = seven.minus(Double::from_i64(phase as i64));
    let angle = along.times(Double { bits: PI_BITS }).over(Double::from_i64(2));
    let rising = Tone::Sine(angle);
    let full = Tone::Level(Double::from_i64(1));
    let none = Tone::Level(Double::from_i64(0));
    if j == 0 {
        if phase == 0 {
            Tone::Level(along)
        } else if phase == 1 {
            Tone::Level(Double::from_i64(1).minus(along))
        } else if phase == 4 {
            rising
        } else if phase == 5 || phase == 6 {
            full
        } else {
            none
        }
    } else if j == 1 {
        if phase == 2 || phase == 6 {
            rising
        } else if phase == 3 || phase == 4 {
            full
        } else if phase == 5 {
            Tone::Cosine(angle)
        } else {
            none
        }
    } else {
        if phase == 0 {
            Tone::Level(along)
        } else if phase == 1 || phase == 2 {
            full
        } else if phase == 3 {
            Tone::Cosine(angle)
        } else if phase == 6 {
            rising
        } else {
            none
        }
    }
}

fn rising(x: Double, from: Double, width: Double) -> (t: Tone)
    ensures
        t == rise(x, from, width),
{
    Tone::Sine(
        x.minus(from).over(width).times(Double { bits: PI_BITS }).over(Double::from_i64(2)),
    )
}

fn usual(x: Double, j: i32) -> (t: Tone)
    requires
        0 <= j < 3,
    ensures
        t == usual_tone(x, j as int),
{
    let none = Tone::Level(Double::from_i64(0));
    let full = Tone::Level(Double::from_i64(1));
    let mid = fraction(60, 100);
    if j == 0 {
        if x.lt(fraction(13, 100)) {
            none
        } else if x.lt(fraction(73, 100)) {
            rising(x, fraction(13, 100), mid)
        } else {
            full
        }
    } else if j == 1 {
        if x.lt(mid) {
            none
        } else if x.lt(fraction(91, 100)) {
            rising(x, mid, fraction(31, 100))
        } else {
            full
        }
    } else {
        if x.lt(mid) {
            Tone::HalfSine(
                x.minus(Double::from_i64(0)).over(mid).times(Double { bits: PI_BITS }),
            )
        } else if x.lt(fraction(78, 100)) {
            none
        } else {
            Tone::Level(x.minus(fraction(78, 100)).over(fraction(22, 100)))
        }
    }
}

/// The colour of a table of `len` colours that stands at a place on the scale.
fn look_up(x: Double, len: i32) -> (n: i32)
    requires
        2 <= len,
    ensures
        n == table_index(x, len as int),
{
    x.times(Double::from_i64(len as i64 - 1)).plus(fraction(1, 2)).to_i32()
}

fn of_byte(byte: u8) -> (t: Tone)
    ensures
        t == byte_tone(byte),
{
    Tone::Level(Double::from_i64(byte as i64).over(Double::from_i64(255)))
}

/// Component `k` (red, green or blue) of colour `i` on the scale.
pub fn tone(cfg: &Config, tables: &Tables, i: i32, k: i32) -> (t: Tone)
    requires
        colourful(cfg@),
        tables@.serve(cfg@),
        0 <= i < cfg.spectrum_points,
        0 <= k < 3,
    ensures
        t == tone_of(cfg@, tables@, i as int, k as int),
{
    reveal(tone_of);
    let x = Double::from_i64(i as i64).over(Double::from_i64(cfg.spectrum_points as i64 - 1));
    if cfg.monochrome {
        return mono(cfg, x, k);
    }
    let p = cfg.perm;
    let j: i32 = if k == 0 {
        p % 3
    } else if k == 1 {
        (1 + p + p % 2) % 3
    } else {
        (2 + p - p % 2) % 3
    };
    if cfg.high_colour {
        high(x, j)
    } else if cfg.alt_palette {
        let n = look_up(x, ALT_PALETTE_LEN);
        proof {
            lemma_table_index(i as int, cfg.spectrum_points - 1, ALT_PALETTE_LEN - 1);
        }
        of_byte(tables.alt[(3 * n + j) as usize])
    } else if cfg.palette != Palette::Sox {
        let n = look_up(x, GRADIENT_LEN);
        proof {
            lemma_table_index(i as int, cfg.spectrum_points - 1, GRADIENT_LEN - 1);
        }
        let start: i32 = 3 * GRADIENT_LEN * (cfg.palette.index() as i32 - 1);
        of_byte(tables.gradients[(start + 3 * n + j) as usize])
    } else {
        usual(x, j)
    }
}

/// The components of all the colours on the scale, three for each, to have their
/// waves worked out.
pub fn tones(cfg: &Config, tables: &Tables) -> (r: Vec<Tone>)
    requires
        colourful(cfg@),
        tables@.serve(cfg@),
    ensures
        r@ =~= Seq::new(
            (3 * cfg.spectrum_points) as nat,
            |n: int| tone_of(cfg@, tables@, n / 3, n % 3),
        ),
{
    let mut r: Vec<Tone> = Vec::new();
    let mut i: i32 = 0;
    while i < cfg.spectrum_points
        invariant
            0 <= i <= cfg.spectrum_points,
            colourful(cfg@),
            tables@.serve(cfg@),
            r@ =~= Seq::new((3 * i) as nat, |n: int| tone_of(cfg@, tables@, n / 3, n % 3)),
        decreases cfg.spectrum_points - i,
    {
        r.push(tone(cfg, tables, i, 0));
        r.push(tone(cfg, tables, i, 1));
        r.push(tone(cfg, tables, i, 2));
        i = i + 1;
    }
    r
}

/// The grey, or near grey, of a fixed colour, by its bytes.
pub open spec fn fixed_byte(c: ConfigView, slot: int, k: int) -> u8 {
    if c.light_background {
        if slot == 0 {
            if c.monochrome {
                0xdf
            } else if k == 0 {
                0xdd
            } else if k == 1 {
                0xd8
            } else {
                0xd0
            }
        } else if slot == 1 {
            0x00
        } else {
            0x3f
        }
    } else if slot == 0 {
        0x00
    } else if slot == 1 {
        0xff
    } else if slot == 2 {
        0xbf
    } else {
        0x7f
    }
}

/// Component `k` of the colour in a slot of the palette. On a light background the
/// scale is the other way round.
#[verifier::opaque]
pub open spec fn palette_byte(
    c: ConfigView,
    tables: TablesView,
    waves: Seq<Double>,
    slot: int,
    k: int,
) -> u8 {
    if slot < FIXED_PALETTE {
        fixed_byte(c, slot, k)
    } else {
        let i = if c.light_background {
            c.spectrum_points - 1 - (slot - FIXED_PALETTE)
        } else {
            slot - FIXED_PALETTE
        };
        quantised(tone_of(c, tables, i, k).amount(waves[3 * i + k]))
    }
}

fn fixed(cfg: &Config, slot: i32, k: i32) -> (b: u8)
    ensures
        b == fixed_byte(cfg@, slot as int, k as int),
{
    if cfg.light_background {
        if slot == 0 {
            if cfg.monochrome {
                0xdf
            } else if k == 0 {
                0xdd
            } else if k == 1 {
                0xd8
            } else {
                0xd0
            }
        } else if slot == 1 {
            0x00
        } else {
            0x3f
        }
    } else if slot == 0 {
        0x00
    } else if slot == 1 {
        0xff
    } else if slot == 2 {
        0xbf
    } else {
        0x7f
    }
}

fn slot_byte(cfg: &Config, tables: &Tables, waves: &[Double], slot: i32, k: i32) -> (b: u8)
    requires
        colourful(cfg@),
        tables@.serve(cfg@),
        waves@.len() == 3 * cfg.spectrum_points,
        0 <= slot < FIXED_PALETTE + cfg.spectrum_points,
        0 <= k < 3,
    ensures
        b == palette_byte(cfg@, tables@, waves@, slot as int, k as int),
{
    reveal(palette_byte);
    if slot < FIXED_PALETTE {
        fixed(cfg, slot, k)
    } else {
        let i: i32 = if cfg.light_background {
            cfg.spectrum_points - 1 - (slot - FIXED_PALETTE)
        } else {
            slot - FIXED_PALETTE
        };
        let count: usize = waves.len();
        assert(3 * i + k < count);
        quantise(tone(cfg, tables, i, k).value(waves[3 * i as usize + k as usize]))
    }
}

/// The palette, three bytes a colour: the fixed colours and those of the scale.
/// `tables` holds the colours that are not worked out, and `waves` the sine or cosine
/// for each of the [`tones`].
pub fn make_palette(cfg: &Config, tables: &Tables, waves: &[Double]) -> (pal: Vec<u8>)
    requires
        colourful(cfg@),
        tables@.serve(cfg@),
        waves@.len() == 3 * cfg.spectrum_points,
    ensures
        pal@ =~= Seq::new(
            (3 * (FIXED_PALETTE + cfg.spectrum_points)) as nat,
            |n: int| palette_byte(cfg@, tables@, waves@, n / 3, n % 3),
        ),
{
    let mut pal: Vec<u8> = Vec::new();
    let total: i32 = FIXED_PALETTE + cfg.spectrum_points;
    let mut slot: i32 = 0;
    while slot < total
        invariant
            0 <= slot <= total,
            total == FIXED_PALETTE + cfg.spectrum_points,
            colourful(cfg@),
            tables@.serve(cfg@),
            waves@.len() == 3 * cfg.spectrum_points,
            pal@ =~= Seq::new(
                (3 * slot) as nat,
                |n: int| palette_byte(cfg@, tables@, waves@, n / 3, n % 3),
            ),
        decreases total - slot,
    {
        pal.push(slot_byte(cfg, tables, waves, slot, 0));
        pal.push(slot_byte(cfg, tables, waves, slot, 1));
        pal.push(slot_byte(cfg, tables, waves, slot, 2));
        slot = slot + 1;
    }
    pal
}

/// The colour of any level is one of the palette, and the lowest one, of the levels that
/// are numbers, is that of those below the range alone.
pub proof fn law_colours_are_in_the_palette(c: ConfigView, x: Double)
    requires
        2 <= c.spectrum_points <= 252,
        1 <= c.db_range <= i32::MAX,
    ensures
        0 <= colour_step(c, x) < c.spectrum_points,
        FIXED_PALETTE <= colour_of(c, x) < FIXED_PALETTE + c.spectrum_points,
        !x.nan() ==> (colour_step(c, x) == 0 <==> x.less(negated(whole(c.db_range)))),
        !x.nan() ==> (colour_of(c, x) == FIXED_PALETTE <==> x.less(negated(whole(c.db_range)))),
{
    lemma_whole(0);
    lemma_whole(c.db_range);
    if !x.nan() && within_range(c, x) {
        lemma_step(c, x);
    }
}

/// A louder level does not have a lower colour.
pub proof fn law_louder_is_no_darker(c: ConfigView, x: Double, y: Double)
    requires
        x.at_most(y),
        2 <= c.spectrum_points <= 252,
        1 <= c.db_range <= i32::MAX,
    ensures
        colour_step(c, x) <= colour_step(c, y),
        colour_of(c, x) <= colour_of(c, y),
{
    law_colours_are_in_the_palette(c, x);
    law_colours_are_in_the_palette(c, y);
    lemma_whole(0);
    lemma_whole(c.db_range);
    if within_range(c, x) && within_range(c, y) {
        lemma_step(c, x);
        lemma_step(c, y);
        let r = whole(c.db_range);
        let unit = pow2(1074);
        let d = scaled(r.magnitude());
        let n = scaled(whole(c.spectrum_points - 2).magnitude());
        // nearer to zero
        assert(y.magnitude() <= x.magnitude());
        lemma_scaled_monotone(y.magnitude(), x.magnitude());
        let (s, t) = (scaled(x.magnitude()), scaled(y.magnitude()));
        assert(t * unit <= s * unit) by (nonlinear_arith)
            requires
                t <= s,
        ;
        lemma_nearest_monotone(t * unit, s * unit, d);
        let (q, u) = (quotient(x, r), quotient(y, r));
        lemma_scaled_monotone(u.magnitude(), q.magnitude());
        // further from the bottom
        let (a, b) = (up_the_scale(c, x), up_the_scale(c, y));
        let (e, f) = (scaled(q.magnitude()), scaled(u.magnitude()));
        lemma_nearest_monotone((unit - e) as nat, (unit - f) as nat, 1);
        lemma_scaled_monotone(a.magnitude(), b.magnitude());
        let (g, h) = (scaled(a.magnitude()), scaled(b.magnitude()));
        assert(g * n <= h * n) by (nonlinear_arith)
            requires
                g <= h,
        ;
        lemma_pow2_pos(1074);
        lemma_nearest_monotone(g * n, h * n, unit);
        let (p, o) = (product(a, whole(c.spectrum_points - 2)), product(
            b,
            whole(c.spectrum_points - 2),
        ));
        lemma_scaled_monotone(p.magnitude(), o.magnitude());
        let (i, j) = (scaled(p.magnitude()), scaled(o.magnitude()));
        lemma_nearest_monotone(unit + i, unit + j, 1);
        let (v, w) = (sum(whole(1), p), sum(whole(1), o));
        lemma_scaled_monotone(v.magnitude(), w.magnitude());
        lemma_div_is_ordered(
            scaled(v.magnitude()) as int,
            scaled(w.magnitude()) as int,
            unit as int,
        );
    }
}

/// Whether a level is neither below the range nor at the top of it.
spec fn within_range(c: ConfigView, x: Double) -> bool {
    !x.less(negated(whole(c.db_range))) && !whole(0).at_most(x)
}

/// How far up the scale a level is, from 0 to 1.
spec fn up_the_scale(c: ConfigView, x: Double) -> Double {
    sum(whole(1), quotient(x, whole(c.db_range)))
}

/// The way from a level within the range to its step.
proof fn lemma_step(c: ConfigView, x: Double)
    requires
        !x.nan(),
        2 <= c.spectrum_points <= 252,
        1 <= c.db_range <= i32::MAX,
        within_range(c, x),
    ensures
        ({
            let r = whole(c.db_range);
            let q = quotient(x, r);
            let a = up_the_scale(c, x);
            let p = product(a, whole(c.spectrum_points - 2));
            let v = sum(whole(1), p);
            let unit = pow2(1074);
            &&& x.negative()
            &&& scaled(r.magnitude()) > 0
            &&& q.magnitude() == nearest(scaled(x.magnitude()) * unit, scaled(r.magnitude()))
            &&& scaled(q.magnitude()) <= unit
            &&& plain(a)
            &&& a.magnitude() == nearest((unit - scaled(q.magnitude())) as nat, 1)
            &&& plain(p)
            &&& p.magnitude() == nearest(
                scaled(a.magnitude()) * scaled(whole(c.spectrum_points - 2).magnitude()),
                unit,
            )
            &&& plain(v)
            &&& v.magnitude() == nearest(unit + scaled(p.magnitude()), 1)
        }),
        1 <= colour_step(c, x) <= c.spectrum_points - 1,
{
    let r = whole(c.db_range);
    let unit = pow2(1074) as int;
    lemma_whole(0);
    lemma_whole(1);
    lemma_whole(c.db_range);
    lemma_pow2_pos(1074);
    assert(0 * unit == 0);
    let zero = whole(0);
    if zero.magnitude() > 0 {
        lemma_scaled_increases(0, zero.magnitude());
    }
    // x lies between -r and 0
    assert(negated(r).magnitude() == r.magnitude() && negated(r).negative());
    assert(x.negative() && x.magnitude() > 0 && x.magnitude() <= r.magnitude());
    let s = scaled(x.magnitude()) as int;
    let d = scaled(r.magnitude()) as int;
    lemma_scaled_monotone(x.magnitude(), r.magnitude());
    assert(d > 0) by {
        assert(c.db_range * unit > 0) by (nonlinear_arith)
            requires
                c.db_range >= 1,
                unit > 0,
        ;
    }
    assert(r.magnitude() > 0) by {
        assert(scaled(0) == 0);
    }
    let q = quotient(x, r);
    let one = whole(1);
    assert(1 * unit == unit);
    assert(s * unit <= unit * d) by (nonlinear_arith)
        requires
            s <= d,
            unit > 0,
    ;
    lemma_nearest_at_most((s * unit) as nat, d as nat, one.magnitude());
    assert(q.negative() && q.magnitude() <= one.magnitude());
    let t = scaled(q.magnitude()) as int;
    lemma_scaled_monotone(q.magnitude(), one.magnitude());
    // 1 + x / r lies between 0 and 1
    let a = up_the_scale(c, x);
    assert(one.value() + q.value() == unit - t);
    assert(scaled(one.magnitude()) * 1 == unit);
    lemma_nearest_at_most((unit - t) as nat, 1, one.magnitude());
    if unit - t == 0 {
        assert(scaled(0) * 1 == 0);
        lemma_nearest_at_most(0, 1, 0);
    }
    assert(plain(a) && a.magnitude() <= one.magnitude());
    let n = c.spectrum_points - 2;
    lemma_part_at_most(a, n);
    let p = product(a, whole(n));
    lemma_whole(n);
    lemma_whole(n + 1);
    lemma_scaled_monotone(p.magnitude(), whole(n).magnitude());
    assert((n + 1) * unit == n * unit + unit) by (nonlinear_arith);
    assert((n + 2) * unit == n * unit + 2 * unit) by (nonlinear_arith);
    lemma_sum_at_most(one, p, whole(n + 1));
    lemma_sum_at_least(one, p, one);
    let v = sum(one, p);
    lemma_scaled_monotone(v.magnitude(), whole(n + 1).magnitude());
    lemma_scaled_monotone(one.magnitude(), v.magnitude());
    assert(one.value() + p.value() == unit + scaled(p.magnitude()));
    lemma_whole_part_between(v, 1, (n + 1) as nat);
}

} // verus!
