//! How the colours of different options relate.
use crate::arith::{product, quotient, sum, whole};
use crate::bounds::{
    lemma_half, lemma_whole, lemma_whole_part_between, lemma_whole_product, lemma_whole_quotient,
};
use crate::config::ConfigView;
use crate::double::{scaled, Double};
use crate::gradient::{Palette, GRADIENT_LEN};
use crate::legend_laws::lemma_place;
use crate::palette::{
    byte_tone, palette_byte, permuted, quantised, tone_of, TablesView, FIXED_PALETTE,
};
use crate::crumbs::{
    crumb, lemma_one_in_crumbs, lemma_product_is_near, lemma_ratio_is_near, lemma_sum_is_near,
};
use crate::timeparse::half;
use vstd::arithmetic::power2::pow2;
use vstd::prelude::*;

verus! {

/// A permutation gives every component another place and leaves none out; the first one leaves
/// all where they are, and no two of the six are the same.
pub proof fn law_permutations_permute(p: int, q: int)
    requires
        0 <= p < 6,
        0 <= q < 6,
    ensures
        0 <= permuted(p, 0) < 3,
        0 <= permuted(p, 1) < 3,
        0 <= permuted(p, 2) < 3,
        permuted(p, 0) != permuted(p, 1),
        permuted(p, 1) != permuted(p, 2),
        permuted(p, 0) != permuted(p, 2),
        permuted(0, 0) == 0 && permuted(0, 1) == 1 && permuted(0, 2) == 2,
        p != q ==> permuted(p, 0) != permuted(q, 0) || permuted(p, 1) != permuted(q, 1),
{
}

/// The components of every colour of a scale that is not grey are those of the first
/// permutation in another order, whatever the colours come from.
pub proof fn law_colours_are_permuted(c: ConfigView, t: TablesView, i: int, k: int)
    requires
        !c.monochrome,
        0 <= c.perm < 6,
        0 <= k < 3,
    ensures
        tone_of(c, t, i, k) == tone_of(ConfigView { perm: 0, ..c }, t, i, permuted(c.perm, k)),
{
    reveal(tone_of);
    law_permutations_permute(c.perm, 0);
}

/// On a light background the scale runs the other way: its first colour is the last one of a
/// dark background.
pub proof fn law_a_light_background_turns_the_scale(
    c: ConfigView,
    t: TablesView,
    waves: Seq<Double>,
    i: int,
    k: int,
)
    requires
        0 <= i < c.spectrum_points,
        0 <= k < 3,
    ensures
        palette_byte(ConfigView { light_background: true, ..c }, t, waves, FIXED_PALETTE + i, k)
            == palette_byte(
            ConfigView { light_background: false, ..c },
            t,
            waves,
            FIXED_PALETTE + c.spectrum_points - 1 - i,
            k,
        ),
{
    reveal(palette_byte);
    reveal(tone_of);
}

/// Where the ends of the scale stand on it.
proof fn lemma_ends(n: int)
    requires
        1 <= n <= i32::MAX,
    ensures
        quotient(whole(0), whole(n)) == whole(0),
        quotient(whole(n), whole(n)) == whole(1),
{
    assert(0 * n == 0 && 1 * n == n);
    lemma_whole_quotient(0, n);
    lemma_whole_quotient(1, n);
}

/// A scale of greys goes from black to white.
pub proof fn law_greys_go_from_black_to_white(
    c: ConfigView,
    t: TablesView,
    waves: Seq<Double>,
    k: int,
)
    requires
        c.monochrome,
        !c.high_colour,
        !c.light_background,
        2 <= c.spectrum_points <= i32::MAX,
        0 <= k < 3,
    ensures
        palette_byte(c, t, waves, FIXED_PALETTE as int, k) == 0,
        palette_byte(c, t, waves, FIXED_PALETTE + c.spectrum_points - 1, k) == 255,
{
    reveal(palette_byte);
    reveal(tone_of);
    lemma_ends(c.spectrum_points - 1);
    lemma_quantised(0);
    lemma_quantised(1);
}

/// Nothing is written as 0 and everything as 255.
proof fn lemma_quantised(n: int)
    requires
        n == 0 || n == 1,
    ensures
        quantised(whole(n)) == 255 * n,
{
    lemma_whole_product(255, n);
    lemma_place(255 * n);
    lemma_whole(255 * n);
    lemma_half();
    assert(sum(half(), whole(255 * n)) == sum(whole(255 * n), half()));
}

/// The ends of a scale that follows a gradient are the first and the last colour of its
/// table.
pub proof fn law_gradients_are_used_from_end_to_end(c: ConfigView, t: TablesView, k: int)
    requires
        !c.monochrome,
        !c.high_colour,
        !c.alt_palette,
        c.palette != Palette::Sox,
        2 <= c.spectrum_points <= i32::MAX,
        c.perm == 0,
        0 <= k < 3,
    ensures
        ({
            let start = 3 * GRADIENT_LEN * (c.palette.place() - 1);
            &&& tone_of(c, t, 0, k) == byte_tone(t.gradients[start + k])
            &&& tone_of(c, t, c.spectrum_points - 1, k) == byte_tone(
                t.gradients[start + 3 * (GRADIENT_LEN - 1) + k],
            )
        }),
{
    reveal(tone_of);
    lemma_ends(c.spectrum_points - 1);
    lemma_whole_product(0, GRADIENT_LEN - 1);
    lemma_whole_product(1, GRADIENT_LEN - 1);
    lemma_place(0);
    lemma_place(GRADIENT_LEN - 1);
    law_permutations_permute(0, 0);
}

/// A colour that is given by a table comes out as it is given.
pub proof fn law_colours_of_tables_come_out_again(b: u8, wave: Double)
    ensures
        quantised(byte_tone(b).amount(wave)) == b,
{
    let n = b as int;
    let x = quotient(whole(n), whole(255));
    let unit = pow2(1074) as int;
    let g = crumb() as int;
    lemma_one_in_crumbs();
    lemma_ratio_is_near(n, 255);
    lemma_half();
    let xv = scaled(x.magnitude()) as int;
    assert(n * unit <= 255 * unit) by (nonlinear_arith)
        requires
            n <= 255,
            unit > 0,
    ;
    assert(n * unit >= 0) by (nonlinear_arith)
        requires
            n >= 0,
            unit > 0,
    ;
    assert(xv <= 2 * unit) by {
        assert(xv * 255 <= n * unit + 255 * g);
    }
    lemma_product_is_near(255, x);
    let p = product(whole(255), x);
    lemma_sum_is_near(half(), p);
    let s = sum(half(), p);
    let v = s.value();
    assert(2 * v <= 2 * (n * unit) + unit + 2 * (257 * g));
    assert(2 * v >= 2 * (n * unit) + unit - 2 * (257 * g));
    assert((n + 1) * unit == n * unit + unit) by (nonlinear_arith);
    assert(v > 0);
    lemma_whole_part_between(s, n, n as nat);
}

} // verus!
