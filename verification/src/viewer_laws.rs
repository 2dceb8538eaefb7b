//! What the viewer computes with and what its messages change.
use crate::arith::whole;
use crate::bounds::{lemma_whole, lemma_whole_part_between};
use crate::config::{finalized, overdetermined, two_heights};
use crate::double::Double;
use crate::geometry::{transform_size, wanted_rows};
use crate::scale_laws::law_channels_share_the_height;
use crate::spectrogram::{
    ended, pushed, recorded, spectrogram_of, SpectrogramView, StreamView,
};
use crate::viewer::{
    batch_of, fft_in_effect, informed, loading, meta_of, meta_under_way, viewer_config, Analysis,
    MsgView, SpecMeta, ViewerView,
};
use vstd::arithmetic::div_mod::lemma_fundamental_div_mod_converse;
use vstd::arithmetic::power2::{lemma_pow2_pos, pow2};
use vstd::prelude::*;

verus! {

/// The viewer always computes 2400 columns. A length of the transform that is chosen is the
/// one that is used, whatever the channels; without one the channels share 1320 rows. The
/// window function and the gradient are those chosen, and nothing else is asked for.
pub proof fn law_the_viewer_computes_what_is_chosen(a: Analysis, channels: int)
    requires
        1 <= channels,
    ensures
        ({
            let c = finalized(viewer_config(a));
            &&& c.x_size0 == 2400
            &&& c.win_type == a.win_type
            &&& c.palette == a.palette
            &&& !overdetermined(viewer_config(a))
            &&& !two_heights(viewer_config(a))
            &&& a.fft_size matches Some(n) ==> n >= 2 && n % 2 == 0 ==> transform_size(c, channels)
                == n
            &&& a.fft_size is None ==> {
                let y = wanted_rows(c, channels);
                &&& c.y_size == 0
                &&& 1320 < channels * (y + 3)
                &&& y > 32 ==> channels * (y + 2) <= 1320
            }
            &&& c.db_range == 120 && c.gain == 0 && c.perm == 0 && c.spectrum_points == 251
            &&& c.title is None && c.duration_str is None && c.start_time_str is None
            &&& !c.raw && !c.normalize && !c.monochrome && !c.high_colour && !c.alt_palette
            &&& !c.light_background && !c.slack_overlap && !c.no_axes && !c.truncate
        }),
{
    if a.fft_size is None {
        law_channels_share_the_height(finalized(viewer_config(a)), channels);
    }
}

/// A load changes its own number and what is analysed, and a message only what it is about:
/// a start clears the images and says so, the axes come with the two lines above them, images
/// take the place of images, and a failure clears them and says why. No message changes what
/// is analysed or which load counts.
pub proof fn law_messages_change_what_they_are_about<I>(
    v: ViewerView<I>,
    a: Analysis,
    name: Seq<char>,
    m: SpecMeta,
    line1: Seq<char>,
    line2: Seq<char>,
    images: Seq<I>,
)
    ensures
        ({
            let l = loading(v, a);
            &&& l.analysis == a && l.loaded
            &&& v.generation < u64::MAX ==> l.generation == v.generation + 1
            &&& l.generation != v.generation
            &&& l.status == v.status && l.line1 == v.line1 && l.line2 == v.line2
            &&& l.meta == v.meta && l.images == v.images
        }),
        ({
            let s = informed(v, v.generation, MsgView::Start(name));
            &&& s.images.len() == 0
            &&& s.status == "Loading "@ + name + "…"@
            &&& s.meta == v.meta && s.line1 == v.line1 && s.line2 == v.line2
            &&& s.analysis == v.analysis && s.generation == v.generation && s.loaded == v.loaded
        }),
        ({
            let s = informed(v, v.generation, MsgView::Meta(m, line1, line2));
            &&& s.meta == Some(m) && s.line1 == line1 && s.line2 == line2
            &&& s.images == v.images && s.status == v.status
            &&& s.analysis == v.analysis && s.generation == v.generation && s.loaded == v.loaded
        }),
        ({
            let s = informed(v, v.generation, MsgView::Frame(images));
            &&& s.images == images
            &&& s.status == v.status && s.meta == v.meta
            &&& s.line1 == v.line1 && s.line2 == v.line2
            &&& s.analysis == v.analysis && s.generation == v.generation && s.loaded == v.loaded
            &&& informed(v, v.generation, MsgView::Done(images)) == s
        }),
        ({
            let s = informed(v, v.generation, MsgView::Failed(name));
            &&& s.images.len() == 0
            &&& s.status == name
            &&& s.meta == v.meta && s.line1 == v.line1 && s.line2 == v.line2
            &&& s.analysis == v.analysis && s.generation == v.generation && s.loaded == v.loaded
        }),
{
}

/// The length of the transform that is in effect is the one chosen, else that of the file,
/// else 1024.
pub proof fn law_the_length_in_effect<I>(v: ViewerView<I>, n: i32, m: SpecMeta)
    ensures
        v.analysis.fft_size == Some(n) ==> fft_in_effect(v) == n,
        v.analysis.fft_size is None && v.meta == Some(m) ==> fft_in_effect(v) == m.dft_size,
        v.analysis.fft_size is None && v.meta is None ==> fft_in_effect(v) == 1024,
{
}

/// Ten batches are a second of all channels, and a batch is never less than a frame.
pub proof fn law_ten_batches_are_a_second(k: int, channels: int)
    requires
        0 <= k <= 0x1_0000_0000,
        1 <= channels <= u32::MAX,
    ensures
        k >= 1 ==> 10 * batch_of(whole(10 * k), channels) == (10 * k) * channels,
        k == 0 ==> batch_of(whole(10 * k), channels) == channels,
{
    let n = 10 * k;
    lemma_whole(n);
    lemma_pow2_pos(1074);
    let unit = pow2(1074) as int;
    assert((n + 1) * unit == n * unit + unit) by (nonlinear_arith);
    lemma_whole_part_between(whole(n), n, n as nat);
    assert(n * channels == 10 * (k * channels)) by (nonlinear_arith)
        requires
            n == 10 * k,
    ;
    lemma_fundamental_div_mod_converse(n * channels, 10, k * channels, 0);
    if k >= 1 {
        assert(k * channels >= channels) by (nonlinear_arith)
            requires
                k >= 1,
                channels >= 1,
        ;
    } else {
        assert(k * channels == 0) by (nonlinear_arith)
            requires
                k == 0,
        ;
    }
}

/// The axes of a spectrogram under way are those that it has when all of its columns are
/// there: they do not move while samples come in, while columns are added or when the input
/// ends. With an even transform its length comes back.
pub proof fn law_axes_do_not_move(s: StreamView, xs: Seq<i32>, ch: int, logs: Seq<Double>)
    requires
        s.well_formed(),
        s.channels.len() <= i32::MAX,
        i32::MIN <= s.cfg.db_range <= i32::MAX,
    ensures
        meta_under_way(pushed(s, xs)) == meta_under_way(s),
        meta_under_way(recorded(s, ch, logs)) == meta_under_way(s),
        meta_under_way(ended(s)) == meta_under_way(s),
        s.channels[0].cols == s.geom.x_size ==> meta_of(spectrogram_of(s)) == meta_under_way(s),
        s.geom.dft_size % 2 == 0 ==> meta_under_way(s).dft_size == s.geom.dft_size,
        meta_under_way(s).channels == s.channels.len(),
        meta_under_way(s).cols == s.geom.x_size,
        meta_under_way(s).step_size == s.geom.step_size,
        meta_under_way(s).block_steps == s.geom.block_steps,
        meta_under_way(s).rate == s.rate,
        meta_under_way(s).db_range == s.cfg.db_range,
{
}

/// The axes of a finished spectrogram are those of its own columns, steps and rate.
pub proof fn law_finished_axes_are_its_own(s: SpectrogramView)
    requires
        0 <= s.chans <= i32::MAX,
        0 <= s.cols <= i32::MAX,
        0 <= s.step_size <= i32::MAX,
        0 <= s.block_steps <= i32::MAX,
        1 <= s.rows <= 0x4000_0000,
        i32::MIN <= s.cfg.db_range <= i32::MAX,
    ensures
        ({
            let m = meta_of(s);
            &&& m.rate == s.rate && m.channels == s.chans && m.cols == s.cols
            &&& m.step_size == s.step_size && m.block_steps == s.block_steps
            &&& m.db_range == s.cfg.db_range
            &&& m.dft_size / 2 + 1 == s.rows && m.dft_size % 2 == 0
        }),
{
}

} // verus!
