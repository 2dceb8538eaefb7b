//! Laws of a spectrogram under way: how its input may be cut up, and that its
//! channels stay together.
use crate::channel::{BlockView, Geometry};
use crate::channel_laws::{
    law_channels_advance_in_lockstep, law_channels_end_in_lockstep, law_flow_in_pieces, pace,
};
use crate::config::ConfigView;
use crate::double::Double;
use crate::spectrogram::{
    begun, dealt, ended, lemma_share, pushed, pushed_blocks, share, with_column, LevelsView,
    StreamView,
};
use vstd::arithmetic::div_mod::{lemma_fundamental_div_mod, lemma_fundamental_div_mod_converse};
use vstd::prelude::*;

verus! {

/// Whole frames: as many samples for every channel.
pub open spec fn whole_frames(xs: Seq<i32>, chans: nat) -> bool {
    chans > 0 && xs.len() % chans == 0
}

/// Chunks one after another.
pub open spec fn joined(chunks: Seq<Seq<i32>>) -> Seq<i32>
    decreases chunks.len(),
{
    if chunks.len() == 0 {
        Seq::empty()
    } else {
        joined(chunks.drop_last()) + chunks.last()
    }
}

/// The spectrogram once one chunk after another has arrived.
pub open spec fn streamed(s: StreamView, chunks: Seq<Seq<i32>>) -> StreamView
    decreases chunks.len(),
{
    if chunks.len() == 0 {
        s
    } else {
        pushed(streamed(s, chunks.drop_last()), chunks.last())
    }
}

/// The blocks of a channel that one chunk after another completes.
pub open spec fn streamed_blocks(s: StreamView, chunks: Seq<Seq<i32>>, ch: int) -> Seq<BlockView>
    decreases chunks.len(),
{
    if chunks.len() == 0 {
        Seq::empty()
    } else {
        streamed_blocks(s, chunks.drop_last(), ch) + pushed_blocks(
            streamed(s, chunks.drop_last()),
            chunks.last(),
        )[ch]
    }
}

proof fn lemma_share_of_frames(frames: int, rest: int, ch: int, chans: int)
    requires
        0 <= ch < chans,
        0 <= frames,
        0 <= rest,
    ensures
        share(frames * chans + rest, ch, chans) == frames + share(rest, ch, chans),
        share(frames * chans, ch, chans) == frames,
{
    assert(frames * chans >= 0) by (nonlinear_arith)
        requires
            frames >= 0,
            chans > 0,
    ;
    if frames > 0 {
        assert(frames * chans >= chans) by (nonlinear_arith)
            requires
                frames >= 1,
                chans > 0,
        ;
    }
    let v = rest - ch + chans - 1;
    lemma_fundamental_div_mod(v, chans);
    let q = v / chans;
    let r = v % chans;
    assert(chans * q == q * chans) by (nonlinear_arith);
    assert((frames + q) * chans == frames * chans + q * chans) by (nonlinear_arith);
    lemma_fundamental_div_mod_converse(frames * chans + v, chans, frames + q, r);
    let w = frames * chans - ch + chans - 1;
    lemma_fundamental_div_mod_converse(w, chans, frames, chans - 1 - ch);
    if rest <= ch {
        assert(q == 0) by (nonlinear_arith)
            requires
                v == chans * q + r,
                0 <= v < chans,
                0 <= r < chans,
        ;
    } else {
        assert(q >= 0) by (nonlinear_arith)
            requires
                v == chans * q + r,
                v >= 0,
                0 <= r < chans,
        ;
    }
}

/// What is dealt out of whole frames with more behind them.
proof fn lemma_dealt_in_pieces(a: Seq<i32>, b: Seq<i32>, ch: int, chans: nat)
    requires
        whole_frames(a, chans),
        0 <= ch < chans,
    ensures
        dealt(a + b, ch, chans as int) == dealt(a, ch, chans as int) + dealt(b, ch, chans as int),
        dealt(a, ch, chans as int).len() == a.len() / chans,
{
    let n = chans as int;
    let frames = a.len() as int / n;
    lemma_fundamental_div_mod(a.len() as int, n);
    assert(n * frames == frames * n) by (nonlinear_arith);
    assert(frames >= 0) by (nonlinear_arith)
        requires
            a.len() == n * frames,
            n > 0,
            a.len() >= 0,
    ;
    lemma_share_of_frames(frames, b.len() as int, ch, n);
    let whole = dealt(a + b, ch, n);
    let parts = dealt(a, ch, n) + dealt(b, ch, n);
    assert forall|i: int| 0 <= i < whole.len() implies whole[i] == parts[i] by {
        if i < frames {
            assert(i * n + n <= frames * n) by (nonlinear_arith)
                requires
                    i + 1 <= frames,
                    n > 0,
            ;
            assert(i * n >= 0) by (nonlinear_arith)
                requires
                    i >= 0,
                    n > 0,
            ;
        } else {
            assert(i * n == frames * n + (i - frames) * n) by (nonlinear_arith);
            assert((i - frames) * n >= 0) by (nonlinear_arith)
                requires
                    i >= frames,
                    n > 0,
            ;
            lemma_share(b.len() as int, ch, n);
            let last = share(b.len() as int, ch, n) - 1;
            assert((i - frames) * n <= last * n) by (nonlinear_arith)
                requires
                    i - frames <= last,
                    n > 0,
            ;
        }
    }
    assert(whole =~= parts);
}

/// Pushing whole frames and then more is pushing all of it at once.
pub proof fn law_push_in_pieces(s: StreamView, a: Seq<i32>, b: Seq<i32>)
    requires
        whole_frames(a, s.channels.len()),
    ensures
        pushed(pushed(s, a), b) == pushed(s, a + b),
        forall|ch: int|
            0 <= ch < s.channels.len() ==> #[trigger] pushed_blocks(s, a + b)[ch] == pushed_blocks(
                s,
                a,
            )[ch] + pushed_blocks(pushed(s, a), b)[ch],
{
    let n = s.channels.len();
    assert forall|ch: int| 0 <= ch < n implies {
        &&& #[trigger] pushed(pushed(s, a), b).channels[ch] == pushed(s, a + b).channels[ch]
        &&& pushed_blocks(s, a + b)[ch] == pushed_blocks(s, a)[ch] + pushed_blocks(
            pushed(s, a),
            b,
        )[ch]
    } by {
        lemma_dealt_in_pieces(a, b, ch, n);
        law_flow_in_pieces(s.channels[ch], dealt(a, ch, n as int), dealt(b, ch, n as int));
    }
    assert forall|ch: int| 0 <= ch < n implies #[trigger] pushed_blocks(s, a + b)[ch]
        == pushed_blocks(s, a)[ch] + pushed_blocks(pushed(s, a), b)[ch] by {
        assert(pushed(pushed(s, a), b).channels[ch] == pushed(s, a + b).channels[ch]);
    }
    assert(pushed(pushed(s, a), b) =~= pushed(s, a + b));
}

/// An input that arrives in chunks of whole frames makes the same blocks, and leaves
/// the same state, as the input at once: it does not show in a spectrogram how its
/// input was cut up.
pub proof fn law_streaming_is_batch(s: StreamView, chunks: Seq<Seq<i32>>)
    requires
        s.channels.len() > 0,
        forall|k: int|
            0 <= k < chunks.len() ==> whole_frames(#[trigger] chunks[k], s.channels.len()),
    ensures
        streamed(s, chunks) == pushed(s, joined(chunks)),
        forall|ch: int|
            0 <= ch < s.channels.len() ==> #[trigger] streamed_blocks(s, chunks, ch)
                == pushed_blocks(s, joined(chunks))[ch],
        whole_frames(joined(chunks), s.channels.len()),
    decreases chunks.len(),
{
    let n = s.channels.len();
    if chunks.len() == 0 {
        let none = Seq::<i32>::empty();
        assert(0nat % n == 0) by {
            lemma_fundamental_div_mod_converse(0, n as int, 0, 0);
        }
        assert forall|ch: int| 0 <= ch < n implies {
            &&& #[trigger] pushed(s, none).channels[ch] == s.channels[ch]
            &&& pushed_blocks(s, none)[ch] == Seq::<BlockView>::empty()
        } by {
            assert(dealt(none, ch, n as int) =~= none);
        }
        assert(pushed(s, none) =~= s);
        assert forall|ch: int| 0 <= ch < n implies #[trigger] streamed_blocks(s, chunks, ch)
            == pushed_blocks(s, none)[ch] by {
            assert(pushed(s, none).channels[ch] == s.channels[ch]);
        }
    } else {
        let init = chunks.drop_last();
        let a = joined(init);
        let b = chunks.last();
        assert forall|k: int| 0 <= k < init.len() implies whole_frames(#[trigger] init[k], n) by {
            assert(init[k] == chunks[k]);
        }
        law_streaming_is_batch(s, init);
        law_push_in_pieces(s, a, b);
        assert(whole_frames(b, n)) by {
            assert(chunks[chunks.len() - 1] == b);
        }
        lemma_frames_add(a.len() as int, b.len() as int, n as int);
        assert forall|ch: int| 0 <= ch < n implies #[trigger] streamed_blocks(s, chunks, ch)
            == pushed_blocks(s, joined(chunks))[ch] by {
            assert(streamed_blocks(s, init, ch) == pushed_blocks(s, a)[ch]);
            assert(pushed_blocks(s, a + b)[ch] == pushed_blocks(s, a)[ch] + pushed_blocks(
                pushed(s, a),
                b,
            )[ch]);
        }
    }
}

pub proof fn lemma_frames_add(a: int, b: int, n: int)
    requires
        n > 0,
        a % n == 0,
        b % n == 0,
    ensures
        (a + b) % n == 0,
{
    lemma_fundamental_div_mod(a, n);
    lemma_fundamental_div_mod(b, n);
    assert(n * (a / n) + n * (b / n) == (a / n + b / n) * n) by (nonlinear_arith);
    lemma_fundamental_div_mod_converse(a + b, n, a / n + b / n, 0);
}

/// Whether all channels are at the same point of their schedules.
pub open spec fn in_step(s: StreamView) -> bool {
    forall|i: int, j: int|
        0 <= i < s.channels.len() && 0 <= j < s.channels.len() ==> pace(#[trigger] s.channels[i])
            == pace(#[trigger] s.channels[j])
}

/// All channels of a spectrogram stay together, from its beginning, over whole
/// frames, to its end. So they have as many columns.
pub proof fn law_channels_stay_together(
    c: ConfigView,
    geom: Geometry,
    rate: Double,
    chans: nat,
    xs: Seq<i32>,
)
    requires
        whole_frames(xs, chans),
    ensures
        ({
            let all = pushed(begun(c, geom, rate, chans), xs);
            &&& in_step(all)
            &&& in_step(ended(all))
            &&& forall|i: int, j: int|
                0 <= i < chans && 0 <= j < chans ==> (#[trigger] all.channels[i]).cols == (
                #[trigger] all.channels[j]).cols
            &&& forall|i: int, j: int|
                0 <= i < chans && 0 <= j < chans ==> (#[trigger] ended(all).channels[i]).cols == (
                #[trigger] ended(all).channels[j]).cols
        }),
{
    let s = begun(c, geom, rate, chans);
    let all = pushed(s, xs);
    let n = chans as int;
    assert forall|i: int, j: int| 0 <= i < n && 0 <= j < n implies pace(
        #[trigger] all.channels[i],
    ) == pace(#[trigger] all.channels[j]) by {
        lemma_dealt_in_pieces(xs, Seq::empty(), i, chans);
        lemma_dealt_in_pieces(xs, Seq::empty(), j, chans);
        law_channels_advance_in_lockstep(
            s.channels[i],
            s.channels[j],
            dealt(xs, i, n),
            dealt(xs, j, n),
        );
    }
    let done = ended(all);
    assert forall|i: int, j: int| 0 <= i < n && 0 <= j < n implies pace(
        #[trigger] done.channels[i],
    ) == pace(#[trigger] done.channels[j]) by {
        law_channels_end_in_lockstep(all.channels[i], all.channels[j]);
    }
    assert forall|i: int, j: int| 0 <= i < n && 0 <= j < n implies (#[trigger] all.channels[i]).cols
        == (#[trigger] all.channels[j]).cols by {
        assert(pace(all.channels[i]).cols == pace(all.channels[j]).cols);
    }
    assert forall|i: int, j: int| 0 <= i < n && 0 <= j < n implies (
    #[trigger] done.channels[i]).cols == (#[trigger] done.channels[j]).cols by {
        assert(pace(done.channels[i]).cols == pace(done.channels[j]).cols);
    }
}

/// The levels after a list of columns.
pub open spec fn with_columns(v: LevelsView, columns: Seq<Seq<Double>>) -> LevelsView
    decreases columns.len(),
{
    if columns.len() == 0 {
        v
    } else {
        with_column(with_columns(v, columns.drop_last()), columns.last())
    }
}

/// The levels lie column by column: level `j` of column `i` is at place
/// `i * rows + j`, and a later column changes no earlier one.
pub proof fn law_levels_lie_by_columns(v: LevelsView, columns: Seq<Seq<Double>>, i: int, j: int)
    requires
        v.dbfs.len() == 0,
        forall|k: int| 0 <= k < columns.len() ==> (#[trigger] columns[k]).len() == v.rows,
        0 <= i < columns.len(),
        0 <= j < v.rows,
    ensures
        with_columns(v, columns).dbfs.len() == columns.len() * v.rows,
        with_columns(v, columns).dbfs[i * v.rows + j] == with_column(v, columns[i]).dbfs[j],
{
    lemma_levels(v, columns);
}

proof fn lemma_levels(v: LevelsView, columns: Seq<Seq<Double>>)
    requires
        v.dbfs.len() == 0,
        v.rows >= 0,
        forall|k: int| 0 <= k < columns.len() ==> (#[trigger] columns[k]).len() == v.rows,
    ensures
        with_columns(v, columns).dbfs.len() == columns.len() * v.rows,
        with_columns(v, columns).gain == v.gain,
        with_columns(v, columns).rows == v.rows,
        forall|i: int, j: int|
            #![trigger with_column(v, columns[i]).dbfs[j]]
            0 <= i < columns.len() && 0 <= j < v.rows ==> with_columns(v, columns).dbfs[i * v.rows
                + j] == with_column(v, columns[i]).dbfs[j],
    decreases columns.len(),
{
    if columns.len() == 0 {
        assert(0 * v.rows == 0);
    } else {
        let init = columns.drop_last();
        assert forall|k: int| 0 <= k < init.len() implies (#[trigger] init[k]).len() == v.rows by {
            assert(init[k] == columns[k]);
        }
        lemma_levels(v, init);
        let n = init.len() as int;
        assert((n + 1) * v.rows == n * v.rows + v.rows) by (nonlinear_arith);
        assert(columns[n] == columns.last());
        let before = with_columns(v, init);
        let after = with_columns(v, columns);
        assert forall|i: int, j: int|
            #![trigger with_column(v, columns[i]).dbfs[j]]
            0 <= i < columns.len() && 0 <= j < v.rows implies after.dbfs[i * v.rows + j]
            == with_column(v, columns[i]).dbfs[j] by {
            assert(v.dbfs =~= Seq::empty());
            if i < n {
                assert(i * v.rows + v.rows <= n * v.rows) by (nonlinear_arith)
                    requires
                        i + 1 <= n,
                        v.rows >= 0,
                ;
                assert(i * v.rows >= 0) by (nonlinear_arith)
                    requires
                        i >= 0,
                        v.rows >= 0,
                ;
                assert(init[i] == columns[i]);
                assert(with_column(v, init[i]).dbfs[j] == before.dbfs[i * v.rows + j]);
            } else {
                assert(i == n);
            }
        }
    }
}

} // verus!
