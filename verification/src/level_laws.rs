//! Laws of the levels: that every column has its own, which is the largest, and that they
//! do not show how the input was cut up.
//!
//! The spectrum of a block and the logarithm of a power are worked out elsewhere. The laws
//! hold whatever they are, as long as the same is made of the same.
use crate::arith::{negated, product, sum, whole};
use crate::bounds::{lemma_nearest_at_least, lemma_sum_at_least, lemma_whole, plain};
use crate::channel::{
    drained, feed, flowed, padding, silence as still, BlockView, Geometry, Schedule,
};
use crate::channel_laws::{
    completing, law_blocks_complete_the_columns, law_blocks_fit_their_windows,
    law_last_blocks_complete_the_columns,
};
use crate::config::ConfigView;
use crate::convert::narrowed;
use crate::double::{lemma_scaled_increases, scaled, Double};
use crate::rounding::lemma_exact_is_nearest;
use crate::spectrogram::{
    begun, columns_of, dealt, decibels, ended, heard as add_block, loudest, mean_powers, power_of,
    pushed, pushed_blocks, recorded, silence, spectrogram_of, with_block, with_column, LevelsView,
    StreamView,
};
use crate::stream_laws::{
    joined, law_channels_stay_together, law_push_in_pieces, law_streaming_is_batch, streamed,
    streamed_blocks, whole_frames,
};
use vstd::arithmetic::div_mod::lemma_fundamental_div_mod_converse;
use vstd::arithmetic::power2::{lemma_pow2_pos, pow2};
use vstd::prelude::*;

verus! {

/// What is made of blocks and powers elsewhere.
pub struct Ear {
    /// The spectrum of a frame under the window that is built for `end`.
    pub spectrum: spec_fn(Seq<i32>, int) -> Seq<(Double, Double)>,
    /// The logarithm of a power.
    pub log: spec_fn(Double) -> Double,
}

/// The logarithms of the powers of the column under way.
pub open spec fn logs_of(v: LevelsView, ear: Ear, tail: Option<int>) -> Seq<Double> {
    Seq::new(mean_powers(v, tail).len(), |i: int| (ear.log)(mean_powers(v, tail)[i]))
}

/// The levels with the column under way completed.
pub open spec fn closed(v: LevelsView, ear: Ear, tail: Option<int>) -> LevelsView {
    with_column(v, logs_of(v, ear, tail))
}

/// What the window of a block is built for, `end` being what the one before was.
pub open spec fn window_under(end: int, b: BlockView) -> int {
    match b.window {
        Some(e) => e,
        None => end,
    }
}

/// What the window is built for after a list of blocks.
pub open spec fn window_after(end: int, blocks: Seq<BlockView>) -> int
    decreases blocks.len(),
{
    if blocks.len() == 0 {
        end
    } else {
        window_under(window_after(end, blocks.drop_last()), blocks.last())
    }
}

/// The levels once a block has been heard.
pub open spec fn heard_block(v: LevelsView, ear: Ear, end: int, b: BlockView) -> LevelsView {
    let w = with_block(v, (ear.spectrum)(b.frame, window_under(end, b)));
    if b.column {
        closed(w, ear, None)
    } else {
        w
    }
}

/// The levels once a list of blocks has been heard.
pub open spec fn heard(v: LevelsView, ear: Ear, end: int, blocks: Seq<BlockView>) -> LevelsView
    decreases blocks.len(),
{
    if blocks.len() == 0 {
        v
    } else {
        let init = blocks.drop_last();
        heard_block(heard(v, ear, end, init), ear, window_after(end, init), blocks.last())
    }
}

/// A spectrogram once more interleaved samples have been analysed.
pub open spec fn listened(s: StreamView, ear: Ear, xs: Seq<i32>) -> StreamView {
    StreamView {
        levels: Seq::new(
            s.levels.len(),
            |ch: int|
                heard(s.levels[ch], ear, s.channels[ch].last_end, pushed_blocks(s, xs)[ch]),
        ),
        ..pushed(s, xs)
    }
}

/// A spectrogram once one chunk after another has been analysed.
pub open spec fn listened_all(s: StreamView, ear: Ear, chunks: Seq<Seq<i32>>) -> StreamView
    decreases chunks.len(),
{
    if chunks.len() == 0 {
        s
    } else {
        listened(listened_all(s, ear, chunks.drop_last()), ear, chunks.last())
    }
}

/// The levels of a channel once its input has ended.
pub open spec fn last_levels(v: LevelsView, ear: Ear, channel: Schedule) -> LevelsView {
    let d = drained(channel);
    let w = heard(v, ear, channel.last_end, d.blocks);
    match d.tail {
        Some(n) => closed(w, ear, Some(n)),
        None => w,
    }
}

/// A spectrogram once its input has ended and everything has been analysed.
pub open spec fn concluded(s: StreamView, ear: Ear) -> StreamView {
    StreamView {
        levels: Seq::new(
            s.levels.len(),
            |ch: int| last_levels(s.levels[ch], ear, s.channels[ch]),
        ),
        ..ended(s)
    }
}

/// Adding the power of a block, and recording the logarithms of the mean powers where it
/// completes a column, is hearing the block. Recording those of a last, partial column
/// completes it. Neither changes another channel.
pub proof fn law_a_block_is_heard(
    s: StreamView,
    ear: Ear,
    ch: int,
    end: int,
    b: BlockView,
    tail: Option<int>,
)
    requires
        0 <= ch < s.levels.len(),
    ensures
        ({
            let added = add_block(s, ch, (ear.spectrum)(b.frame, window_under(end, b)));
            let done = if b.column {
                recorded(added, ch, logs_of(added.levels[ch], ear, None))
            } else {
                added
            };
            &&& done.levels == s.levels.update(ch, heard_block(s.levels[ch], ear, end, b))
            &&& done.channels == s.channels
        }),
        recorded(s, ch, logs_of(s.levels[ch], ear, tail)).levels == s.levels.update(
            ch,
            closed(s.levels[ch], ear, tail),
        ),
{
    let added = add_block(s, ch, (ear.spectrum)(b.frame, window_under(end, b)));
    let done = if b.column {
        recorded(added, ch, logs_of(added.levels[ch], ear, None))
    } else {
        added
    };
    assert(done.levels =~= s.levels.update(ch, heard_block(s.levels[ch], ear, end, b)));
}

proof fn lemma_heard_in_pieces(
    v: LevelsView,
    ear: Ear,
    end: int,
    a: Seq<BlockView>,
    b: Seq<BlockView>,
)
    ensures
        window_after(end, a + b) == window_after(window_after(end, a), b),
        heard(v, ear, end, a + b) == heard(heard(v, ear, end, a), ear, window_after(end, a), b),
    decreases b.len(),
{
    if b.len() == 0 {
        assert(a + b =~= a);
    } else {
        lemma_heard_in_pieces(v, ear, end, a, b.drop_last());
        assert((a + b).drop_last() =~= a + b.drop_last());
    }
}

/// The window in effect is the one that the channel has counted.
proof fn lemma_window_is_counted(s: Schedule, xs: Seq<i32>)
    ensures
        window_after(s.last_end, flowed(s, xs).1) == flowed(s, xs).0.last_end,
    decreases xs.len(),
{
    if xs.len() > 0 {
        lemma_window_is_counted(s, xs.drop_last());
        let (t, blocks) = flowed(s, xs.drop_last());
        let more = feed(t, xs.last()).1;
        if more.len() == 0 {
            assert(blocks + more =~= blocks);
        } else {
            assert(more =~= seq![more[0]]);
            assert((blocks + more).drop_last() =~= blocks);
        }
    }
}

/// Analysing whole frames and then more is analysing all of it at once.
pub proof fn law_listen_in_pieces(s: StreamView, ear: Ear, a: Seq<i32>, b: Seq<i32>)
    requires
        s.levels.len() == s.channels.len(),
        whole_frames(a, s.channels.len()),
    ensures
        listened(listened(s, ear, a), ear, b) == listened(s, ear, a + b),
{
    let mid = listened(s, ear, a);
    let n = s.channels.len();
    law_push_in_pieces(s, a, b);
    assert(pushed(mid, b).channels =~= pushed(pushed(s, a), b).channels);
    assert(pushed_blocks(mid, b) =~= pushed_blocks(pushed(s, a), b));
    assert forall|ch: int| 0 <= ch < n implies #[trigger] listened(mid, ear, b).levels[ch]
        == listened(s, ear, a + b).levels[ch] by {
        let first = pushed_blocks(s, a)[ch];
        let more = pushed_blocks(pushed(s, a), b)[ch];
        assert(pushed_blocks(s, a + b)[ch] == first + more);
        lemma_heard_in_pieces(s.levels[ch], ear, s.channels[ch].last_end, first, more);
        lemma_window_is_counted(s.channels[ch], dealt(a, ch, n as int));
        assert(mid.channels[ch].last_end == window_after(s.channels[ch].last_end, first));
    }
    assert(listened(mid, ear, b).levels =~= listened(s, ear, a + b).levels);
    assert(listened(mid, ear, b) =~= listened(s, ear, a + b));
}

/// An input that arrives in chunks of whole frames leaves the same levels as the input at
/// once, bit for bit, before its end and after it: the finished spectrogram is the same,
/// and so is everything that is drawn of it.
pub proof fn law_levels_do_not_show_the_cuts(s: StreamView, ear: Ear, chunks: Seq<Seq<i32>>)
    requires
        s.channels.len() > 0,
        s.levels.len() == s.channels.len(),
        forall|k: int|
            0 <= k < chunks.len() ==> whole_frames(#[trigger] chunks[k], s.channels.len()),
    ensures
        listened_all(s, ear, chunks) == listened(s, ear, joined(chunks)),
        concluded(listened_all(s, ear, chunks), ear) == concluded(
            listened(s, ear, joined(chunks)),
            ear,
        ),
        spectrogram_of(concluded(listened_all(s, ear, chunks), ear)) == spectrogram_of(
            concluded(listened(s, ear, joined(chunks)), ear),
        ),
    decreases chunks.len(),
{
    let n = s.channels.len();
    law_streaming_is_batch(s, chunks);
    if chunks.len() == 0 {
        let none = Seq::<i32>::empty();
        assert(streamed(s, chunks) == s);
        assert(pushed(s, none) == s);
        assert forall|ch: int| 0 <= ch < n implies #[trigger] listened(s, ear, none).levels[ch]
            == s.levels[ch] by {
            assert(streamed_blocks(s, chunks, ch) == pushed_blocks(s, none)[ch]);
        }
        assert(listened(s, ear, none).levels =~= s.levels);
        assert(listened(s, ear, none) =~= s);
    } else {
        let init = chunks.drop_last();
        assert forall|k: int| 0 <= k < init.len() implies whole_frames(#[trigger] init[k], n) by {
            assert(init[k] == chunks[k]);
        }
        law_levels_do_not_show_the_cuts(s, ear, init);
        law_streaming_is_batch(s, init);
        law_listen_in_pieces(s, ear, joined(init), chunks.last());
    }
}

/// Whether levels are whole columns, and as many as `cols`.
pub open spec fn holds(v: LevelsView, rows: int, cols: int) -> bool {
    &&& v.rows == rows
    &&& v.magnitudes.len() == rows
    &&& v.dbfs.len() == cols * rows
}

proof fn lemma_closed_holds(v: LevelsView, ear: Ear, tail: Option<int>, rows: int, cols: int)
    requires
        holds(v, rows, cols),
    ensures
        holds(closed(v, ear, tail), rows, cols + 1),
{
    assert((cols + 1) * rows == cols * rows + rows) by (nonlinear_arith);
}

proof fn lemma_heard_holds(
    v: LevelsView,
    ear: Ear,
    end: int,
    blocks: Seq<BlockView>,
    rows: int,
    cols: int,
)
    requires
        holds(v, rows, cols),
    ensures
        holds(heard(v, ear, end, blocks), rows, cols + completing(blocks)),
    decreases blocks.len(),
{
    if blocks.len() > 0 {
        let init = blocks.drop_last();
        lemma_heard_holds(v, ear, end, init, rows, cols);
        let b = blocks.last();
        let w = with_block(
            heard(v, ear, end, init),
            (ear.spectrum)(b.frame, window_under(window_after(end, init), b)),
        );
        if b.column {
            lemma_closed_holds(w, ear, None, rows, cols + completing(init));
        }
    }
}

/// Whether every channel has the levels of the columns that it has completed.
pub open spec fn levelled(s: StreamView) -> bool {
    &&& s.levels.len() == s.channels.len()
    &&& forall|ch: int|
        0 <= ch < s.levels.len() ==> holds(
            #[trigger] s.levels[ch],
            s.geom.rows as int,
            s.channels[ch].cols,
        )
}

/// A channel that has the levels of its columns has them after more samples too, and once
/// its input has ended: every column gets as many levels as there are rows.
pub proof fn law_every_column_has_its_levels(s: StreamView, ear: Ear, xs: Seq<i32>)
    requires
        levelled(s),
    ensures
        levelled(listened(s, ear, xs)),
        levelled(concluded(s, ear)),
{
    let n = s.channels.len();
    let rows = s.geom.rows as int;
    assert forall|ch: int| 0 <= ch < n implies holds(
        #[trigger] listened(s, ear, xs).levels[ch],
        rows,
        listened(s, ear, xs).channels[ch].cols,
    ) by {
        let c = s.channels[ch];
        assert(holds(s.levels[ch], rows, c.cols));
        law_blocks_complete_the_columns(c, dealt(xs, ch, n as int));
        lemma_heard_holds(
            s.levels[ch],
            ear,
            c.last_end,
            pushed_blocks(s, xs)[ch],
            rows,
            c.cols,
        );
    }
    assert forall|ch: int| 0 <= ch < n implies holds(
        #[trigger] concluded(s, ear).levels[ch],
        rows,
        concluded(s, ear).channels[ch].cols,
    ) by {
        let c = s.channels[ch];
        let d = drained(c);
        assert(holds(s.levels[ch], rows, c.cols));
        law_last_blocks_complete_the_columns(c);
        lemma_heard_holds(s.levels[ch], ear, c.last_end, d.blocks, rows, c.cols);
        let w = heard(s.levels[ch], ear, c.last_end, d.blocks);
        if let Some(k) = d.tail {
            lemma_closed_holds(w, ear, Some(k), rows, c.cols + completing(d.blocks));
        }
    }
}

/// The finished spectrogram of an input of whole frames has every level: for each channel
/// as many as rows times columns, and no more columns than the image has room for.
pub proof fn law_spectrograms_are_complete(
    c: ConfigView,
    geom: Geometry,
    rate: Double,
    chans: nat,
    ear: Ear,
    xs: Seq<i32>,
)
    requires
        geom.well_formed(),
        geom.x_size >= 0,
        whole_frames(xs, chans),
    ensures
        ({
            let done = concluded(listened(begun(c, geom, rate, chans), ear, xs), ear);
            let r = spectrogram_of(done);
            &&& done.complete()
            &&& r.cfg == c
            &&& r.rate == rate
            &&& r.chans == chans
            &&& r.rows == geom.rows
            &&& r.step_size == geom.step_size
            &&& r.block_steps == geom.block_steps
            &&& 0 <= r.cols <= geom.x_size
            &&& r.dbfs.len() == chans
            &&& forall|ch: int|
                0 <= ch < chans ==> (#[trigger] r.dbfs[ch]).len() == r.rows * r.cols
        }),
{
    let s = begun(c, geom, rate, chans);
    let all = listened(s, ear, xs);
    let done = concluded(all, ear);
    let r = spectrogram_of(done);
    let rows = geom.rows as int;
    assert(0 * rows == 0);
    assert(levelled(s));
    law_every_column_has_its_levels(s, ear, xs);
    law_every_column_has_its_levels(all, ear, xs);
    law_channels_stay_together(c, geom, rate, chans, xs);
    let plain = pushed(s, xs);
    assert(all.channels =~= plain.channels);
    assert(done.channels =~= ended(plain).channels);
    lemma_columns_in_room(s.channels[0], dealt(xs, 0, chans as int));
    assert forall|ch: int| 0 <= ch < chans implies {
        &&& columns_of(#[trigger] done.levels[ch]) == r.cols
        &&& done.levels[ch].dbfs.len() == r.cols * rows
    } by {
        assert(ended(plain).channels[ch].cols == ended(plain).channels[0].cols);
        lemma_fundamental_div_mod_converse(r.cols * rows, rows, r.cols, 0);
    }
    assert(r.cols * rows == rows * r.cols) by (nonlinear_arith);
    assert forall|ch: int| 0 <= ch < chans implies (#[trigger] r.dbfs[ch]).len() == r.rows
        * r.cols by {
        assert(r.dbfs[ch] == done.levels[ch].dbfs);
        assert(columns_of(done.levels[ch]) == r.cols);
    }
}

proof fn lemma_columns_in_room(s: Schedule, xs: Seq<i32>)
    requires
        s.well_formed(),
        s.geom.x_size >= 0,
    ensures
        0 <= drained(flowed(s, xs).0).state.cols <= s.geom.x_size,
{
    law_blocks_fit_their_windows(s, xs);
    let t = flowed(s, xs).0;
    if !t.truncated {
        let ending = Schedule { end: 0, end_min: -t.geom.dft_size, ..t };
        law_blocks_fit_their_windows(ending, still(padding(t)));
    }
}

/// The largest of a number and a list of numbers.
pub open spec fn peak(start: Double, dbs: Seq<Double>) -> Double
    decreases dbs.len(),
{
    if dbs.len() == 0 {
        start
    } else {
        let before = peak(start, dbs.drop_last());
        if before.less(dbs.last()) {
            dbs.last()
        } else {
            before
        }
    }
}

/// The largest is one of them, and none is larger.
pub proof fn law_the_peak_is_the_largest(start: Double, dbs: Seq<Double>)
    requires
        !start.nan(),
    ensures
        start.at_most(peak(start, dbs)),
        forall|i: int|
            0 <= i < dbs.len() && !dbs[i].nan() ==> (#[trigger] dbs[i]).at_most(peak(start, dbs)),
        peak(start, dbs) == start || dbs.contains(peak(start, dbs)),
    decreases dbs.len(),
{
    if dbs.len() > 0 {
        let init = dbs.drop_last();
        law_the_peak_is_the_largest(start, init);
        let before = peak(start, init);
        assert(dbs[dbs.len() - 1] == dbs.last());
        assert forall|i: int| 0 <= i < dbs.len() && !dbs[i].nan() implies (
        #[trigger] dbs[i]).at_most(peak(start, dbs)) by {
            if i < init.len() {
                assert(init[i] == dbs[i]);
            }
        }
        if !before.less(dbs.last()) && before != start {
            let k = choose|k: int| 0 <= k < init.len() && init[k] == before;
            assert(dbs[k] == before);
        }
    }
}

/// Whether the levels are `dbs`, each with the gain added and rounded to a single, and the
/// largest of them, before the gain, is kept.
pub open spec fn crowned(v: LevelsView, start: Double, dbs: Seq<Double>) -> bool {
    &&& v.dbfs == Seq::new(dbs.len(), |i: int| narrowed(sum(dbs[i], whole(v.gain))))
    &&& v.max == peak(start, dbs)
}

proof fn lemma_loudest(start: Double, dbs: Seq<Double>, logs: Seq<Double>, n: nat)
    requires
        n <= logs.len(),
    ensures
        loudest(peak(start, dbs), logs, n) == peak(
            start,
            dbs + Seq::new(n, |i: int| decibels(logs[i])),
        ),
    decreases n,
{
    let all = dbs + Seq::new(n, |i: int| decibels(logs[i]));
    if n == 0 {
        assert(all =~= dbs);
    } else {
        lemma_loudest(start, dbs, logs, (n - 1) as nat);
        assert(all.drop_last() =~= dbs + Seq::new((n - 1) as nat, |i: int| decibels(logs[i])));
        assert(all.last() == decibels(logs[n - 1]));
    }
}

proof fn lemma_column_crowned(v: LevelsView, start: Double, dbs: Seq<Double>, logs: Seq<Double>)
    requires
        crowned(v, start, dbs),
    ensures
        crowned(
            with_column(v, logs),
            start,
            dbs + Seq::new(logs.len(), |i: int| decibels(logs[i])),
        ),
{
    lemma_loudest(start, dbs, logs, logs.len());
    let all = dbs + Seq::new(logs.len(), |i: int| decibels(logs[i]));
    assert(with_column(v, logs).dbfs =~= Seq::new(
        all.len(),
        |i: int| narrowed(sum(all[i], whole(v.gain))),
    ));
}

/// The levels of blocks as they are before the gain is added and they are rounded.
pub open spec fn exact_levels(v: LevelsView, ear: Ear, end: int, blocks: Seq<BlockView>) -> Seq<
    Double,
>
    decreases blocks.len(),
{
    if blocks.len() == 0 {
        Seq::empty()
    } else {
        let init = blocks.drop_last();
        let b = blocks.last();
        let before = exact_levels(v, ear, end, init);
        if b.column {
            let w = with_block(
                heard(v, ear, end, init),
                (ear.spectrum)(b.frame, window_under(window_after(end, init), b)),
            );
            let logs = logs_of(w, ear, None);
            before + Seq::new(logs.len(), |i: int| decibels(logs[i]))
        } else {
            before
        }
    }
}

proof fn lemma_heard_crowned(
    v: LevelsView,
    ear: Ear,
    end: int,
    blocks: Seq<BlockView>,
    start: Double,
    dbs: Seq<Double>,
)
    requires
        crowned(v, start, dbs),
    ensures
        crowned(
            heard(v, ear, end, blocks),
            start,
            dbs + exact_levels(v, ear, end, blocks),
        ),
    decreases blocks.len(),
{
    let more = exact_levels(v, ear, end, blocks);
    if blocks.len() == 0 {
        assert(dbs + more =~= dbs);
    } else {
        let init = blocks.drop_last();
        lemma_heard_crowned(v, ear, end, init, start, dbs);
        let b = blocks.last();
        let before = dbs + exact_levels(v, ear, end, init);
        let w = with_block(
            heard(v, ear, end, init),
            (ear.spectrum)(b.frame, window_under(window_after(end, init), b)),
        );
        assert(crowned(w, start, before));
        if b.column {
            let logs = logs_of(w, ear, None);
            lemma_column_crowned(w, start, before, logs);
            let last = Seq::new(logs.len(), |i: int| decibels(logs[i]));
            assert(before + last =~= dbs + more);
        }
    }
}

/// The largest level that a finished spectrogram keeps is that of its first channel, the
/// gain left out: the largest of the levels themselves and of the bottom of the range.
pub proof fn law_the_largest_level_is_kept(
    c: ConfigView,
    geom: Geometry,
    rate: Double,
    chans: nat,
    ear: Ear,
    xs: Seq<i32>,
) -> (dbs: Seq<Double>)
    requires
        chans > 0,
    ensures
        ({
            let done = concluded(listened(begun(c, geom, rate, chans), ear, xs), ear);
            let r = spectrogram_of(done);
            &&& r.max == peak(negated(whole(c.db_range)), dbs)
            &&& r.dbfs[0] == Seq::new(
                dbs.len(),
                |i: int| narrowed(sum(dbs[i], whole(c.gain))),
            )
        }),
{
    let s = begun(c, geom, rate, chans);
    let all = listened(s, ear, xs);
    let done = concluded(all, ear);
    let start = negated(whole(c.db_range));
    let none = Seq::<Double>::empty();
    let v = s.levels[0];
    assert(v.dbfs =~= Seq::new(none.len(), |i: int| narrowed(sum(none[i], whole(v.gain)))));
    assert(crowned(v, start, none));
    let first = pushed_blocks(s, xs)[0];
    lemma_heard_crowned(v, ear, s.channels[0].last_end, first, start, none);
    lemma_gain_is_kept(v, ear, s.channels[0].last_end, first);
    let a = none + exact_levels(v, ear, s.channels[0].last_end, first);
    let w = all.levels[0];
    let ch = all.channels[0];
    let d = drained(ch);
    lemma_heard_crowned(w, ear, ch.last_end, d.blocks, start, a);
    lemma_gain_is_kept(w, ear, ch.last_end, d.blocks);
    let b = a + exact_levels(w, ear, ch.last_end, d.blocks);
    let u = heard(w, ear, ch.last_end, d.blocks);
    assert(spectrogram_of(done).dbfs[0] == done.levels[0].dbfs);
    if let Some(k) = d.tail {
        let logs = logs_of(u, ear, Some(k));
        lemma_column_crowned(u, start, b, logs);
        b + Seq::new(logs.len(), |i: int| decibels(logs[i]))
    } else {
        b
    }
}

proof fn lemma_gain_is_kept(v: LevelsView, ear: Ear, end: int, blocks: Seq<BlockView>)
    ensures
        heard(v, ear, end, blocks).gain == v.gain,
    decreases blocks.len(),
{
    if blocks.len() > 0 {
        lemma_gain_is_kept(v, ear, end, blocks.drop_last());
    }
}

/// Zero and a power is the power.
proof fn lemma_zero_and_power(parts: (Double, Double))
    ensures
        sum(whole(0), power_of(parts)) == power_of(parts),
        !power_of(parts).negative(),
{
    let p = power_of(parts);
    lemma_whole(0);
    assert(0 * pow2(1074) == 0);
    assert(!product(parts.0, parts.0).negative() && !product(parts.1, parts.1).negative()) by {
        lemma_square(parts.0);
        lemma_square(parts.1);
    }
    let v = product(parts.0, parts.0).value() + product(parts.1, parts.1).value();
    if v > 0 {
        lemma_nearest_at_least(v as nat, 1, 0);
    }
    if p.finite() && p.magnitude() > 0 {
        lemma_scaled_increases(0, p.magnitude());
        lemma_exact_is_nearest(p.magnitude(), scaled(p.magnitude()), 1);
    }
    assert(scaled(0) == 0);
}

proof fn lemma_square(a: Double)
    ensures
        !product(a, a).negative(),
{
    if a.finite() {
        lemma_pow2_pos(1074);
        assert(0 <= scaled(a.magnitude()) * scaled(a.magnitude()));
        assert(scaled(0) == 0);
        assert(0 * pow2(1074) == 0);
        lemma_nearest_at_least(scaled(a.magnitude()) * scaled(a.magnitude()), pow2(1074), 0);
    }
}

/// What a block adds to a sum is what it adds to nothing: nothing is cleared, and a block
/// that is heard again adds the same amount again. No sum gets smaller.
pub proof fn law_blocks_add_up(v: LevelsView, spectrum: Seq<(Double, Double)>, i: int)
    requires
        v.magnitudes.len() == v.rows,
        0 <= i < v.rows,
    ensures
        ({
            let none = LevelsView { magnitudes: silence(v.rows), ..v };
            let a = with_block(none, spectrum).magnitudes[i];
            let once = with_block(v, spectrum);
            &&& once.magnitudes.len() == v.rows
            &&& once.magnitudes[i] == sum(v.magnitudes[i], a)
            &&& with_block(once, spectrum).magnitudes[i] == sum(once.magnitudes[i], a)
            &&& with_block(with_block(none, spectrum), spectrum).magnitudes[i] == sum(a, a)
            &&& !a.nan() && !v.magnitudes[i].nan() && !v.magnitudes[i].negative()
                ==> v.magnitudes[i].at_most(once.magnitudes[i])
        }),
{
    let a = power_of(spectrum[i]);
    lemma_zero_and_power(spectrum[i]);
    let m = v.magnitudes[i];
    if plain(a) && plain(m) {
        lemma_sum_at_least(m, a, m);
    }
}

} // verus!
