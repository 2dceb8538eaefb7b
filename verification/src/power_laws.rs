//! What powers come to: their mean over a column, and levels in decibels.
use crate::arith::{negated, product, sum, whole};
use crate::audio::Planes;
use crate::bounds::{
    lemma_whole, lemma_whole_product, lemma_whole_quotient, lemma_whole_sum, plain,
};
use crate::channel::Geometry;
use crate::config::ConfigView;
use crate::convert::narrowed;
use crate::crumbs::{
    crumb, lemma_one_in_crumbs, lemma_ratio_is_near, lemma_rounding_moves_a_crumb,
};
use crate::double::{scaled, Double};
use crate::spectrogram::{
    block_norm, dealt, decibels, mean_powers, no_levels, power_of, share, spectrogram_of,
    with_column, LevelsView, StreamView,
};
use crate::taper_laws::{lemma_ratio_is_number, lemma_times_one};
use crate::window::ratio;
use vstd::arithmetic::div_mod::lemma_fundamental_div_mod_converse;
use vstd::arithmetic::power2::{lemma_pow2_pos, pow2};
use vstd::prelude::*;

verus! {

/// One part in a whole number, but for a crumb.
proof fn lemma_part(n: int)
    requires
        1 <= n <= 0x1_0000,
    ensures
        plain(ratio(1, n)),
        -(crumb() * n) <= ratio(1, n).value() * n - pow2(1074) <= crumb() * n,
{
    lemma_ratio_is_near(1, n);
    assert(1 * pow2(1074) == pow2(1074));
}

/// What the powers of a column are multiplied by is one part in the number of its blocks, but
/// for a crumb: of a full column those that belong to it, and of a last, partial column
/// those that it holds, however many would have belonged to it.
pub proof fn law_powers_are_divided_by_their_blocks(block_steps: int, n: int)
    requires
        1 <= n <= block_steps <= 2048,
    ensures
        block_norm(block_steps, None).finite(),
        -(crumb() * block_steps) <= block_norm(block_steps, None).value() * block_steps - pow2(1074)
            <= crumb() * block_steps,
        block_norm(block_steps, Some(n)).finite(),
        -(0x1000 * crumb() * n) <= block_norm(block_steps, Some(n)).value() * n - pow2(1074)
            <= 0x1000 * crumb() * n,
{
    let b = block_steps;
    let unit = pow2(1074) as int;
    let g = crumb() as int;
    lemma_one_in_crumbs();
    lemma_part(b);
    lemma_many_over_few(b, n);
    let part = ratio(1, b);
    let more = ratio(b, n);
    let (pv, mv) = (part.value(), more.value());
    // the product of the two, before it is rounded
    lemma_norm_bound(b, n, pv, mv, unit, g);
    assert(pv * mv >= 0) by (nonlinear_arith)
        requires
            pv >= 0,
            mv >= 0,
    ;
    let num = (pv * mv) as nat;
    assert(num < 0x10_0000_0000_0000 * (crumb() * pow2(1074))) by {
        assert(0x10_0000_0000_0000 * (g * unit) == 0x10_0000_0000_0000 * (crumb() * pow2(1074)));
    }
    lemma_rounding_moves_a_crumb(num, pow2(1074));
    let v = block_norm(b, Some(n)).value();
    assert(block_norm(b, Some(n)) == product(part, more));
    assert(scaled(part.magnitude()) * scaled(more.magnitude()) == num);
    lemma_norm_rounded(n, v, pv * mv, unit, g);
}

proof fn lemma_norm_rounded(n: int, v: int, x: int, unit: int, g: int)
    requires
        n >= 1,
        unit > 0,
        g > 0,
        -(g * unit) <= v * unit - x <= g * unit,
        -(0xF00 * g * n * unit) <= x * n - unit * unit <= 0xF00 * g * n * unit,
    ensures
        -(0x1000 * g * n) <= v * n - unit <= 0x1000 * g * n,
{
    assert(-(g * unit * n) <= v * unit * n - x * n <= g * unit * n) by (nonlinear_arith)
        requires
            -(g * unit) <= v * unit - x <= g * unit,
            n >= 1,
    ;
    assert((v * n - unit) * unit == v * unit * n - unit * unit) by (nonlinear_arith);
    assert(g * unit * n == g * n * unit) by (nonlinear_arith);
    assert(0xF00 * g * n * unit == 0xF00 * (g * n * unit)) by (nonlinear_arith);
    assert(g * n * unit > 0) by (nonlinear_arith)
        requires
            g > 0,
            n >= 1,
            unit > 0,
    ;
    assert((0x1000 * g * n) * unit == 0x1000 * (g * n * unit)) by (nonlinear_arith);
    let w = v * n - unit;
    let m = 0x1000 * g * n;
    assert(-(m * unit) <= w * unit <= m * unit);
    assert(-m <= w <= m) by (nonlinear_arith)
        requires
            -(m * unit) <= w * unit <= m * unit,
            unit > 0,
    ;
}

/// How many times fewer blocks go into more, but for a crumb.
proof fn lemma_many_over_few(b: int, n: int)
    requires
        1 <= n <= b <= 2048,
    ensures
        plain(ratio(b, n)),
        -(crumb() * n) <= ratio(b, n).value() * n - b * pow2(1074) <= crumb() * n,
{
    lemma_whole(n);
    lemma_whole(b);
    lemma_one_in_crumbs();
    lemma_pow2_pos(1074);
    let unit = pow2(1074) as int;
    let g = crumb() as int;
    let num = scaled(whole(b).magnitude()) * pow2(1074);
    let den = scaled(whole(n).magnitude());
    assert(den > 0) by (nonlinear_arith)
        requires
            den == n * unit,
            n >= 1,
            unit > 0,
    ;
    assert(whole(n).magnitude() > 0) by {
        assert(scaled(0) == 0);
    }
    assert(num < 0x10_0000_0000_0000 * (crumb() * den)) by (nonlinear_arith)
        requires
            num == (b * unit) * unit,
            den == n * unit,
            unit == 0x100_0000_0000 * g,
            crumb() == g,
            1 <= n <= b <= 2048,
            unit > 0,
            g > 0,
    {
        assert((b * unit) * unit <= (2048 * n * unit) * unit) by (nonlinear_arith)
            requires
                b <= 2048 * n,
                unit > 0,
        ;
        assert((2048 * n * unit) * unit == 0x8_0000_0000_0000 * (g * (n * unit)))
            by (nonlinear_arith)
            requires
                unit == 0x100_0000_0000 * g,
        ;
        assert(g * (n * unit) > 0) by (nonlinear_arith)
            requires
                g > 0,
                n >= 1,
                unit > 0,
        ;
    }
    lemma_rounding_moves_a_crumb(num, den);
    let v = ratio(b, n).value();
    assert(-(g * n) <= v * n - b * unit <= g * n) by (nonlinear_arith)
        requires
            -(g * den) <= v * den - num <= g * den,
            num == (b * unit) * unit,
            den == n * unit,
            unit > 0,
    ;
}

/// A part of a column and the inverse of the part of it that is there.
proof fn lemma_norm_bound(b: int, n: int, pv: int, mv: int, unit: int, g: int)
    requires
        1 <= n <= b <= 2048,
        unit == 0x100_0000_0000 * g,
        g > 0,
        pv >= 0,
        mv >= 0,
        -(g * b) <= pv * b - unit <= g * b,
        -(g * n) <= mv * n - b * unit <= g * n,
    ensures
        -(0xF00 * g * n * unit) <= (pv * mv) * n - unit * unit <= 0xF00 * g * n * unit,
        pv * mv < 0x10_0000_0000_0000 * (g * unit),
{
    let d = pv * b - unit;
    let e = mv * n - b * unit;
    // pv * (mv * n) = pv * b * unit + pv * e = unit * unit + d * unit + pv * e
    assert((pv * mv) * n == pv * (mv * n)) by (nonlinear_arith);
    assert(pv * (mv * n) == pv * (b * unit) + pv * e) by (nonlinear_arith)
        requires
            e == mv * n - b * unit,
    ;
    assert(pv * (b * unit) == (pv * b) * unit) by (nonlinear_arith);
    assert((pv * b) * unit == unit * unit + d * unit) by (nonlinear_arith)
        requires
            d == pv * b - unit,
    ;
    assert(pv <= 2 * unit) by (nonlinear_arith)
        requires
            pv * b - unit <= g * b,
            b >= 1,
            g <= unit,
            unit > 0,
            pv >= 0,
    ;
    assert(-(2 * (g * n * unit)) <= pv * e <= 2 * (g * n * unit)) by (nonlinear_arith)
        requires
            0 <= pv <= 2 * unit,
            -(g * n) <= e <= g * n,
            g > 0,
            n >= 1,
    ;
    assert(-(2048 * (g * n * unit)) <= d * unit <= 2048 * (g * n * unit)) by (nonlinear_arith)
        requires
            -(g * b) <= d <= g * b,
            b <= 2048,
            n >= 1,
            g > 0,
            unit > 0,
    {
        assert(g * b <= 2048 * (g * n)) by (nonlinear_arith)
            requires
                b <= 2048,
                n >= 1,
                g > 0,
        ;
        assert((2048 * (g * n)) * unit == 2048 * (g * n * unit)) by (nonlinear_arith);
        let m = 2048 * (g * n);
        assert(-(m * unit) <= d * unit <= m * unit) by (nonlinear_arith)
            requires
                -m <= d <= m,
                unit > 0,
        ;
    }
    assert(0xF00 * g * n * unit == 0xF00 * (g * n * unit)) by (nonlinear_arith);
    assert(g * n * unit > 0) by (nonlinear_arith)
        requires
            g > 0,
            n >= 1,
            unit > 0,
    ;
    let x = pv * mv;
    assert(x * n <= unit * unit + 2050 * (g * n * unit));
    assert(x <= unit * unit + 2050 * (g * unit)) by (nonlinear_arith)
        requires
            x * n <= unit * unit + 2050 * (g * n * unit),
            n >= 1,
            unit > 0,
            g > 0,
            x >= 0,
    {
        assert(g * n * unit == (g * unit) * n) by (nonlinear_arith);
        assert(unit * unit <= (unit * unit) * n) by (nonlinear_arith)
            requires
                n >= 1,
                unit > 0,
        ;
        let y = unit * unit + 2050 * (g * unit);
        assert(y * n == (unit * unit) * n + 2050 * ((g * unit) * n)) by (nonlinear_arith)
            requires
                y == unit * unit + 2050 * (g * unit),
        ;
        assert(x * n <= y * n);
        assert(x <= y) by (nonlinear_arith)
            requires
                x * n <= y * n,
                n >= 1,
        ;
    }
    assert(unit * unit == 0x100_0000_0000 * (g * unit)) by (nonlinear_arith)
        requires
            unit == 0x100_0000_0000 * g,
    ;
    assert(g * unit > 0) by (nonlinear_arith)
        requires
            g > 0,
            unit > 0,
    ;
}

/// The mean of a single block is its power, and a last column that is full after all is
/// treated as any other.
pub proof fn law_a_single_block_is_its_own_mean(v: LevelsView, i: int, b: int)
    requires
        0 <= i < v.magnitudes.len(),
        !v.magnitudes[i].nan(),
        1 <= b <= i32::MAX,
    ensures
        v.block_steps == 1 ==> mean_powers(v, None)[i] == v.magnitudes[i],
        v.block_steps == b ==> mean_powers(v, Some(b)) == mean_powers(v, None),
        mean_powers(v, None).len() == v.magnitudes.len(),
{
    assert(1 * 1 == 1 && 1 * b == b);
    lemma_whole_quotient(1, 1);
    lemma_whole_quotient(1, b);
    lemma_times_one(v.magnitudes[i]);
    lemma_ratio_is_number(1, b);
    lemma_times_one(ratio(1, b));
    assert(block_norm(b, Some(b)) == block_norm(b, None));
    assert(block_norm(1, None) == whole(1));
    if v.block_steps == b {
        assert(mean_powers(v, Some(b)) =~= mean_powers(v, None));
    }
}

/// The power of a component is the sum of the squares of its two parts, whichever of them is
/// which and whatever their signs.
pub proof fn law_powers_are_sums_of_squares(a: int, b: int)
    requires
        0 <= a <= 0x200_0000,
        0 <= b <= 0x200_0000,
    ensures
        power_of((whole(a), whole(b))) == whole(a * a + b * b),
        power_of((negated(whole(a)), whole(b))) == whole(a * a + b * b),
        power_of((whole(a), negated(whole(b)))) == whole(a * a + b * b),
{
    assert(0 <= a * a <= 0x4_0000_0000_0000) by (nonlinear_arith)
        requires
            0 <= a <= 0x200_0000,
    ;
    assert(0 <= b * b <= 0x4_0000_0000_0000) by (nonlinear_arith)
        requires
            0 <= b <= 0x200_0000,
    ;
    lemma_whole_product(a, a);
    lemma_whole_product(b, b);
    lemma_whole_sum(a * a, b * b);
    lemma_whole(a);
    lemma_whole(b);
    let (m, n) = (negated(whole(a)), negated(whole(b)));
    assert(m.magnitude() == whole(a).magnitude() && n.magnitude() == whole(b).magnitude());
    assert(product(m, m) == product(whole(a), whole(a)));
    assert(product(n, n) == product(whole(b), whole(b)));
}

/// Ten decibels are a factor of ten: one more in the logarithm of a power is ten more in its
/// level. The levels of a column are these with the gain added, as singles, one for each row,
/// behind those that were there; and the gain is that of all columns.
pub proof fn law_levels_are_decibels_and_gain(v: LevelsView, logs: Seq<Double>, i: int, k: int)
    requires
        0 <= i < logs.len(),
        0 <= k <= 1000,
        logs[i] == negated(whole(k)) || logs[i] == whole(k),
        0 <= v.gain <= 1000,
    ensures
        logs[i] == whole(k) ==> with_column(v, logs).dbfs[v.dbfs.len() + i] == narrowed(
            whole(10 * k + v.gain),
        ),
        k > 0 && logs[i] == negated(whole(k)) && v.gain < 10 * k ==> with_column(
            v,
            logs,
        ).dbfs[v.dbfs.len() + i] == narrowed(negated(whole(10 * k - v.gain))),
        with_column(v, logs).dbfs.take(v.dbfs.len() as int) == v.dbfs,
        with_column(v, logs).dbfs.len() == v.dbfs.len() + logs.len(),
        with_column(v, logs).gain == v.gain,
{
    let r = with_column(v, logs);
    assert(r.dbfs.take(v.dbfs.len() as int) =~= v.dbfs);
    lemma_whole_product(10, k);
    lemma_whole(k);
    lemma_whole(10);
    lemma_whole(10 * k);
    lemma_whole(v.gain);
    if logs[i] == whole(k) {
        lemma_whole_sum(10 * k, v.gain);
    }
    if k > 0 && logs[i] == negated(whole(k)) && v.gain < 10 * k {
        let n = negated(whole(k));
        assert(n.magnitude() == whole(k).magnitude() && n.negative());
        assert(decibels(n).magnitude() == whole(10 * k).magnitude());
        assert(decibels(n) == negated(whole(10 * k)));
        lemma_gain_on_negative(10 * k, v.gain);
    }
}

/// A number added to a larger one below zero.
proof fn lemma_gain_on_negative(a: int, g: int)
    requires
        0 <= g < a <= 0x1_0000,
    ensures
        sum(negated(whole(a)), whole(g)) == negated(whole(a - g)),
{
    lemma_whole(a);
    lemma_whole(g);
    lemma_whole(a - g);
    lemma_pow2_pos(1074);
    let unit = pow2(1074) as int;
    let s = scaled(whole(a - g).magnitude());
    assert(a * unit - g * unit == (a - g) * unit) by (nonlinear_arith);
    assert((a - g) * unit > 0) by (nonlinear_arith)
        requires
            g < a,
            unit > 0,
    ;
    assert(negated(whole(a)).value() == -(a * unit));
    assert(s * 1 == s);
    crate::rounding::lemma_exact_is_nearest(whole(a - g).magnitude(), s, 1);
}

/// Before any column, the largest level is the lowest of the range, there is no level and no
/// power, and the gain is that of the options.
pub proof fn law_levels_begin_at_the_bottom_of_the_range(c: ConfigView, geom: Geometry, i: int)
    requires
        0 <= c.db_range <= i32::MAX,
        0 <= i < geom.rows,
    ensures
        ({
            let v = no_levels(c, geom);
            &&& v.max.finite() && v.max.value() == -(c.db_range * pow2(1074))
            &&& v.dbfs.len() == 0
            &&& v.magnitudes.len() == v.rows == geom.rows
            &&& v.magnitudes[i].finite() && v.magnitudes[i].value() == 0
            &&& v.gain == c.gain
            &&& v.block_steps == geom.block_steps
        }),
{
    lemma_whole(c.db_range);
    lemma_whole(0);
    assert(0 * pow2(1074) == 0);
}

/// A finished spectrogram is on the scale of the stream that it comes from: its steps, its
/// columns and its rate are those of the stream, its rows those of the transform, its columns
/// and its largest level those of the first channel, and the levels of every channel its own.
pub proof fn law_spectrograms_keep_their_scale(s: StreamView, ch: int)
    requires
        s.well_formed(),
        0 <= ch < s.channels.len(),
    ensures
        ({
            let r = spectrogram_of(s);
            &&& r.chans == s.channels.len()
            &&& r.step_size == s.geom.step_size
            &&& r.block_steps == s.geom.block_steps
            &&& r.rate == s.rate
            &&& r.rows == s.geom.dft_size / 2 + 1
            &&& r.cols == s.channels[0].cols
            &&& r.max == s.levels[0].max
            &&& r.dbfs[ch] == s.levels[ch].dbfs
            &&& r.dbfs.len() == r.chans
            &&& r.cfg == s.cfg
        }),
{
}

/// Dealing samples out to their channels undoes interleaving: of whole frames every channel
/// gets one sample a frame, its own, in the order of the frames.
pub proof fn law_dealing_undoes_interleaving(p: Planes, frames: nat, c: int, f: int)
    requires
        0 <= c < p.chans(),
        0 <= f < frames,
    ensures
        dealt(p.interleaved(frames), c, p.chans() as int).len() == frames,
        dealt(p.interleaved(frames), c, p.chans() as int)[f] == p.at(c, f) as i32,
{
    let n = p.chans() as int;
    let len = frames * n;
    assert(len >= n && f * n + c < len) by (nonlinear_arith)
        requires
            0 <= c < n,
            0 <= f < frames,
            len == frames * n,
    ;
    assert(f * n >= 0) by (nonlinear_arith)
        requires
            0 <= f,
            0 < n,
    ;
    assert(len - c + n - 1 == frames * n + (n - 1 - c));
    assert(frames * n == n * frames) by (nonlinear_arith);
    lemma_fundamental_div_mod_converse(len - c + n - 1, n, frames as int, n - 1 - c);
    assert(share(len, c, n) == frames);
    lemma_fundamental_div_mod_converse(f * n + c, n, f, c);
}

} // verus!
