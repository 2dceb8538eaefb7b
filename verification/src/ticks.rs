//! The labels around the spectrogram in the viewer, in pixels from the top left of
//! their gutters.
use crate::arith::{difference, product, quotient, saturated, sum, whole, whole_part};
use crate::convert::{larger, narrowed, widen_single, widened};
use crate::double::Double;
use crate::labels::{fmt_freq, fmt_time, freq_text, time_text};
use crate::legend::seconds_of;
use crate::text::{signed_decimal, signed_digits};
use crate::timeparse::half;
use crate::viewer::SpecMeta;
use crate::window::{fraction, ratio};
use vstd::prelude::*;
use vstd::string::*;

verus! {

/// The width of the frequency gutter.
pub const FREQ_W: i64 = 72;

/// The height of the time gutter.
pub const TIME_H: i64 = 34;

/// The width of the gutter with the scale of colours.
pub const LEGEND_W: i64 = 84;

/// The height of the lines about the track.
pub const TITLE_H: i64 = 74;

/// The gap between two channels.
pub const CHANNEL_GAP: i64 = 8;

/// Where a label's text stands in its box.
#[derive(Clone, Copy, Debug, PartialEq, Eq, Structural)]
pub enum Align {
    Start,
    Center,
    End,
}

/// A label.
#[derive(Debug)]
pub struct TickLabel {
    pub left: Double,
    pub top: Double,
    pub width: Double,
    pub align: Align,
    pub text: String,
}

/// The model of a label.
#[verifier::ext_equal]
pub struct TickView {
    pub left: Double,
    pub top: Double,
    pub width: Double,
    pub align: Align,
    pub text: Seq<char>,
}

impl View for TickLabel {
    type V = TickView;

    open spec fn view(&self) -> TickView {
        TickView {
            left: self.left,
            top: self.top,
            width: self.width,
            align: self.align,
            text: self.text@,
        }
    }
}

/// The models of a list of labels.
pub open spec fn tick_views(list: Seq<TickLabel>) -> Seq<TickView> {
    list.map_values(|t: TickLabel| t@)
}

/// The area of the spectrogram in a window.
pub fn centre_area(width: Double, height: Double) -> (r: (Double, Double))
    ensures
        r.0 == larger(
            difference(difference(width, whole(FREQ_W as int)), whole(LEGEND_W as int)),
            whole(1),
        ),
        r.1 == larger(
            difference(difference(height, whole(TITLE_H as int)), whole(TIME_H as int)),
            whole(1),
        ),
{
    let one = Double::from_i64(1);
    (
        width.minus(Double::from_i64(FREQ_W)).minus(Double::from_i64(LEGEND_W)).max(one),
        height.minus(Double::from_i64(TITLE_H)).minus(Double::from_i64(TIME_H)).max(one),
    )
}

/// How many ticks a length has room for at one in `pixels`: from 2 to 12.
pub open spec fn room_for(length: Double, pixels: int) -> int {
    saturated(whole_part(quotient(length, whole(pixels))), 2, 12)
}

fn room_of(length: Double, pixels: i64) -> (n: i64)
    ensures
        n == room_for(length, pixels as int),
{
    let n = length.over(Double::from_i64(pixels)).to_i64();
    if n < 2 {
        2
    } else if n > 12 {
        12
    } else {
        n
    }
}

/// How many frequencies are labelled in a channel.
pub fn freq_target(band_h: Double) -> (n: i64)
    ensures
        n == room_for(band_h, 50),
{
    room_of(band_h, 50)
}

/// How many times are labelled.
pub fn time_target(area_w: Double) -> (n: i64)
    ensures
        n == room_for(area_w, 90),
{
    room_of(area_w, 90)
}

/// The step that would divide `max` into `target` parts.
pub fn rough_step(max: Double, target: i64) -> (r: Double)
    ensures
        r == quotient(max, whole(target as int)),
{
    max.over(Double::from_i64(target))
}

/// A step of 1, 2, 5 or 10 times `mag`: the first that is no less than what would
/// divide `max` into `target` parts. `mag` is the power of ten below that.
pub open spec fn nice(max: Double, target: int, mag: Double) -> Double {
    if max.at_most(whole(0)) || target == 0 {
        whole(1)
    } else {
        let norm = quotient(quotient(max, whole(target)), mag);
        let factor = if norm.at_most(whole(1)) {
            whole(1)
        } else if norm.at_most(whole(2)) {
            whole(2)
        } else if norm.at_most(whole(5)) {
            whole(5)
        } else {
            whole(10)
        };
        product(factor, mag)
    }
}

/// A step of 1, 2, 5 or 10 times `mag`.
pub fn nice_step(max: Double, target: i64, mag: Double) -> (step: Double)
    ensures
        step == nice(max, target as int, mag),
{
    let one = Double::from_i64(1);
    if max.le(Double::from_i64(0)) || target == 0 {
        return one;
    }
    let norm = rough_step(max, target).over(mag);
    let factor = if norm.le(one) {
        one
    } else if norm.le(Double::from_i64(2)) {
        Double::from_i64(2)
    } else if norm.le(Double::from_i64(5)) {
        Double::from_i64(5)
    } else {
        Double::from_i64(10)
    };
    factor.times(mag)
}

/// Numbers from `t` on, a step apart, up to `end`, or if `strict` below it; for as long
/// as they grow.
pub open spec fn run(t: Double, step: Double, end: Double, strict: bool) -> Seq<Double>
    decreases 0x8000_0000_0000_0000 - t.rank(),
{
    let inside = if strict {
        t.less(end)
    } else {
        t.at_most(end)
    };
    let next = sum(t, step);
    if !inside {
        Seq::empty()
    } else if t.less(next) {
        seq![t] + run(next, step, end, strict)
    } else {
        seq![t]
    }
}

fn run_of(start: Double, step: Double, end: Double, strict: bool) -> (r: Vec<Double>)
    ensures
        r@ == run(start, step, end, strict),
{
    let mut r: Vec<Double> = Vec::new();
    let mut t = start;
    loop
        invariant
            r@ + run(t, step, end, strict) =~= run(start, step, end, strict),
        decreases 0x8000_0000_0000_0000 - t.rank(),
    {
        let inside = if strict {
            t.lt(end)
        } else {
            t.le(end)
        };
        if !inside {
            assert(r@ =~= run(start, step, end, strict));
            return r;
        }
        let next = t.plus(step);
        let ghost before = r@;
        r.push(t);
        if !t.lt(next) {
            assert(before + seq![t] =~= r@);
            return r;
        }
        assert(before + (seq![t] + run(next, step, end, strict)) =~= r@ + run(
            next,
            step,
            end,
            strict,
        ));
        t = next;
    }
}

/// A number held between two others.
pub open spec fn held(v: Double, lo: Double, hi: Double) -> Double {
    if v.less(lo) {
        lo
    } else if hi.less(v) {
        hi
    } else {
        v
    }
}

fn hold(v: Double, lo: Double, hi: Double) -> (r: Double)
    ensures
        r == held(v, lo, hi),
{
    if v.lt(lo) {
        lo
    } else if hi.lt(v) {
        hi
    } else {
        v
    }
}

/// The height of a channel among `channels`.
pub open spec fn band_height(channels: int, area_h: Double) -> Double {
    let n = whole(
        if channels < 1 {
            1
        } else {
            channels
        },
    );
    larger(
        quotient(
            difference(area_h, product(difference(n, whole(1)), whole(CHANNEL_GAP as int))),
            n,
        ),
        whole(1),
    )
}

/// The height of a channel.
pub fn channel_height(meta: &SpecMeta, area_h: Double) -> (h: Double)
    ensures
        h == band_height(meta.channels as int, area_h),
{
    let one = Double::from_i64(1);
    let n = Double::from_i64(
        if meta.channels < 1 {
            1
        } else {
            meta.channels as i64
        },
    );
    area_h.minus(n.minus(one).times(Double::from_i64(CHANNEL_GAP))).over(n).max(one)
}

/// The label of frequency `f` in channel `k`. It stays inside of the channel.
pub open spec fn freq_label(nyq: Double, band_h: Double, k: int, f: Double) -> TickView {
    let top = product(whole(k), sum(band_h, whole(CHANNEL_GAP as int)));
    let y = sum(top, product(difference(whole(1), quotient(f, nyq)), band_h));
    let low = larger(difference(sum(top, band_h), whole(14)), top);
    TickView {
        left: whole(0),
        top: held(difference(y, whole(7)), top, low),
        width: whole(FREQ_W - 10),
        align: Align::End,
        text: freq_text(f),
    }
}

/// The frequencies that are labelled: steps from zero on, and the highest.
pub open spec fn label_freqs(nyq: Double, step: Double) -> Seq<Double> {
    run(whole(0), step, difference(nyq, product(step, half())), true).push(nyq)
}

/// The labels of the first `k` channels.
pub open spec fn freq_labels(nyq: Double, band_h: Double, step: Double, k: nat) -> Seq<TickView>
    decreases k,
{
    if k == 0 {
        Seq::empty()
    } else {
        freq_labels(nyq, band_h, step, (k - 1) as nat) + label_freqs(nyq, step).map_values(
            |f: Double| freq_label(nyq, band_h, k - 1, f),
        )
    }
}

fn freq_label_of(nyq: Double, band_h: Double, k: i32, f: Double) -> (t: TickLabel)
    ensures
        t@ == freq_label(nyq, band_h, k as int, f),
{
    let one = Double::from_i64(1);
    let top = Double::from_i64(k as i64).times(band_h.plus(Double::from_i64(CHANNEL_GAP)));
    let y = top.plus(one.minus(f.over(nyq)).times(band_h));
    let low = top.plus(band_h).minus(Double::from_i64(14)).max(top);
    TickLabel {
        left: Double::from_i64(0),
        top: hold(y.minus(Double::from_i64(7)), top, low),
        width: Double::from_i64(FREQ_W - 10),
        align: Align::End,
        text: fmt_freq(f),
    }
}

/// The labels of the frequency axes; see [`nice_step`] for `mag`, which belongs to the
/// [`rough_step`] of the highest frequency and the [`freq_target`].
pub fn freq_axis_labels(meta: &SpecMeta, area_h: Double, mag: Double) -> (r: Vec<TickLabel>)
    ensures
        ({
            let nyq = quotient(meta.rate, whole(2));
            let band_h = band_height(meta.channels as int, area_h);
            let step = nice(nyq, room_for(band_h, 50), mag);
            tick_views(r@) == freq_labels(
                nyq,
                band_h,
                step,
                if meta.channels < 0 {
                    0
                } else {
                    meta.channels as nat
                },
            )
        }),
{
    let nyq = meta.nyquist();
    let band_h = channel_height(meta, area_h);
    let step = nice_step(nyq, freq_target(band_h), mag);
    let mut freqs = run_of(
        Double::from_i64(0),
        step,
        nyq.minus(step.times(fraction(1, 2))),
        true,
    );
    freqs.push(nyq);
    assert(freqs@ =~= label_freqs(nyq, step));
    all_freq_labels(nyq, band_h, step, freqs.as_slice(), meta.channels)
}

fn all_freq_labels(
    nyq: Double,
    band_h: Double,
    step: Double,
    freqs: &[Double],
    channels: i32,
) -> (r: Vec<TickLabel>)
    requires
        freqs@ == label_freqs(nyq, step),
    ensures
        tick_views(r@) == freq_labels(
            nyq,
            band_h,
            step,
            if channels < 0 {
                0
            } else {
                channels as nat
            },
        ),
{
    let mut r: Vec<TickLabel> = Vec::new();
    assert(tick_views(r@) =~= Seq::empty());
    let mut k: i32 = 0;
    while k < channels
        invariant
            0 <= k,
            k <= channels || (channels < 0 && k == 0),
            freqs@ == label_freqs(nyq, step),
            tick_views(r@) == freq_labels(nyq, band_h, step, k as nat),
        decreases channels - k,
    {
        add_freq_labels(&mut r, nyq, band_h, freqs, k);
        k = k + 1;
    }
    r
}

fn add_freq_labels(r: &mut Vec<TickLabel>, nyq: Double, band_h: Double, freqs: &[Double], k: i32)
    ensures
        tick_views(final(r)@) == tick_views(old(r)@) + freqs@.map_values(
            |f: Double| freq_label(nyq, band_h, k as int, f),
        ),
{
    let ghost before = tick_views(r@);
    let ghost all = freqs@.map_values(|f: Double| freq_label(nyq, band_h, k as int, f));
    let mut i: usize = 0;
    while i < freqs.len()
        invariant
            i <= freqs@.len(),
            all == freqs@.map_values(|f: Double| freq_label(nyq, band_h, k as int, f)),
            tick_views(r@) =~= before + all.take(i as int),
        decreases freqs@.len() - i,
    {
        let label = freq_label_of(nyq, band_h, k, freqs[i]);
        let ghost so_far = tick_views(r@);
        let ghost one = label@;
        r.push(label);
        assert(tick_views(r@) =~= so_far.push(one));
        i = i + 1;
    }
    assert(all.take(i as int) =~= all);
}

/// The label of time `t` on an axis of `span` seconds and `area_w` pixels: the first one
/// begins at the left edge, and the last one ends at the right edge.
pub open spec fn time_label(span: Double, area_w: Double, t: Double) -> TickView {
    let w = whole(48);
    let part = held(quotient(t, span), whole(0), whole(1));
    let last = larger(difference(area_w, w), whole(0));
    let tiny = ratio(1, 1_000_000);
    let (left, align) = if part.at_most(tiny) {
        (whole(0), Align::Start)
    } else if difference(whole(1), tiny).at_most(part) {
        (last, Align::End)
    } else {
        (
            held(
                difference(product(part, area_w), quotient(w, whole(2))),
                whole(0),
                last,
            ),
            Align::Center,
        )
    };
    TickView { left, top: whole(9), width: w, align, text: time_text(t) }
}

fn time_label_of(span: Double, area_w: Double, t: Double) -> (r: TickLabel)
    ensures
        r@ == time_label(span, area_w, t),
{
    let zero = Double::from_i64(0);
    let one = Double::from_i64(1);
    let w = Double::from_i64(48);
    let part = hold(t.over(span), zero, one);
    let last = area_w.minus(w).max(zero);
    let tiny = fraction(1, 1_000_000);
    let (left, align) = if part.le(tiny) {
        (zero, Align::Start)
    } else if one.minus(tiny).le(part) {
        (last, Align::End)
    } else {
        (
            hold(part.times(area_w).minus(w.over(Double::from_i64(2))), zero, last),
            Align::Center,
        )
    };
    TickLabel { left, top: Double::from_i64(9), width: w, align, text: fmt_time(t) }
}

/// The labels of the time axis; see [`nice_step`] for `mag`, which belongs to the
/// [`rough_step`] of the time that is shown and the [`time_target`].
pub fn time_axis_labels(meta: &SpecMeta, area_w: Double, mag: Double) -> (r: Vec<TickLabel>)
    ensures
        ({
            let span = seconds_of(
                meta.cols as int,
                meta.step_size as int,
                meta.block_steps as int,
                meta.rate,
            );
            let step = nice(span, room_for(area_w, 90), mag);
            tick_views(r@) == if whole(0).less(span) {
                run(whole(0), step, sum(span, ratio(1, 1_000_000)), false).map_values(
                    |t: Double| time_label(span, area_w, t),
                )
            } else {
                Seq::empty()
            }
        }),
{
    let zero = Double::from_i64(0);
    let span = meta.time_span();
    let mut r: Vec<TickLabel> = Vec::new();
    assert(tick_views(r@) =~= Seq::empty());
    if !zero.lt(span) {
        return r;
    }
    let step = nice_step(span, time_target(area_w), mag);
    let times = run_of(zero, step, span.plus(fraction(1, 1_000_000)), false);
    let ghost all = times@.map_values(|t: Double| time_label(span, area_w, t));
    let mut i: usize = 0;
    while i < times.len()
        invariant
            i <= times@.len(),
            all == times@.map_values(|t: Double| time_label(span, area_w, t)),
            tick_views(r@) =~= all.take(i as int),
        decreases times@.len() - i,
    {
        let label = time_label_of(span, area_w, times[i]);
        let ghost so_far = tick_views(r@);
        let ghost one = label@;
        r.push(label);
        assert(tick_views(r@) =~= so_far.push(one));
        i = i + 1;
    }
    assert(all.take(i as int) =~= all);
    r
}

/// The label of a level `d` decibels below the top, on a scale of `range` decibels.
pub open spec fn level_label(range: Double, area_h: Double, d: Double) -> TickView {
    TickView {
        left: whole(6),
        top: held(
            difference(product(quotient(d, range), area_h), whole(7)),
            whole(0),
            larger(difference(area_h, whole(14)), whole(0)),
        ),
        width: whole(LEGEND_W - 24),
        align: Align::Start,
        text: if d.at_most(ratio(1, 1_000_000)) {
            "0"@
        } else {
            "-"@ + signed_digits(crate::labels::as_i64(whole_part(d)))
        },
    }
}

fn level_label_of(range: Double, area_h: Double, d: Double) -> (r: TickLabel)
    ensures
        r@ == level_label(range, area_h, d),
{
    let zero = Double::from_i64(0);
    let y = d.over(range).times(area_h);
    let text = if d.le(fraction(1, 1_000_000)) {
        "0".to_string()
    } else {
        let mut t = "-".to_string();
        let n = signed_decimal(d.to_i64());
        t.append(n.as_str());
        t
    };
    TickLabel {
        left: Double::from_i64(6),
        top: hold(
            y.minus(Double::from_i64(7)),
            zero,
            area_h.minus(Double::from_i64(14)).max(zero),
        ),
        width: Double::from_i64(LEGEND_W - 24),
        align: Align::Start,
        text,
    }
}

/// The labels of the scale of colours, 20 decibels apart.
pub fn legend_labels(meta: &SpecMeta, area_h: Double) -> (r: Vec<TickLabel>)
    ensures
        ({
            let range = whole(meta.db_range as int);
            tick_views(r@) == run(
                whole(0),
                whole(20),
                sum(range, ratio(1, 1_000_000)),
                false,
            ).map_values(|d: Double| level_label(range, area_h, d))
        }),
{
    let range = Double::from_i64(meta.db_range as i64);
    let levels = run_of(
        Double::from_i64(0),
        Double::from_i64(20),
        range.plus(fraction(1, 1_000_000)),
        false,
    );
    let mut r: Vec<TickLabel> = Vec::new();
    assert(tick_views(r@) =~= Seq::empty());
    let ghost all = levels@.map_values(|d: Double| level_label(range, area_h, d));
    let mut i: usize = 0;
    while i < levels.len()
        invariant
            i <= levels@.len(),
            all == levels@.map_values(|d: Double| level_label(range, area_h, d)),
            tick_views(r@) =~= all.take(i as int),
        decreases levels@.len() - i,
    {
        let label = level_label_of(range, area_h, levels[i]);
        let ghost so_far = tick_views(r@);
        let ghost one = label@;
        r.push(label);
        assert(tick_views(r@) =~= so_far.push(one));
        i = i + 1;
    }
    assert(all.take(i as int) =~= all);
    r
}

/// The sum of two singles. Rounding to a double first does not change it, nor the
/// difference, the product or the quotient.
pub open spec fn single_sum(a: u32, b: u32) -> u32 {
    narrowed(sum(widened(a), widened(b)))
}

/// The difference of two singles.
pub open spec fn single_difference(a: u32, b: u32) -> u32 {
    narrowed(difference(widened(a), widened(b)))
}

/// The product of two singles.
pub open spec fn single_product(a: u32, b: u32) -> u32 {
    narrowed(product(widened(a), widened(b)))
}

/// The quotient of two singles.
pub open spec fn single_quotient(a: u32, b: u32) -> u32 {
    narrowed(quotient(widened(a), widened(b)))
}

/// The larger one of two singles.
pub open spec fn single_larger(a: u32, b: u32) -> u32 {
    narrowed(larger(widened(a), widened(b)))
}

/// A whole number, of up to 2^53, as a single.
pub open spec fn single_whole(n: int) -> u32 {
    narrowed(whole(n))
}

/// The place of a channel on the screen, in singles.
#[derive(Clone, Copy, Debug, PartialEq, Eq, Structural)]
pub struct Band {
    pub top: u32,
    pub height: u32,
}

/// The height of each of `n` bands that share an area with gaps between them.
pub open spec fn band_share(height: u32, n: int) -> u32 {
    let gaps = single_product(
        single_difference(single_whole(n), single_whole(1)),
        single_whole(CHANNEL_GAP as int),
    );
    single_larger(
        single_quotient(single_difference(height, gaps), single_whole(n)),
        single_whole(1),
    )
}

/// The place of band `k` of `n` in an area that begins at `origin`.
pub open spec fn band_place(origin: u32, height: u32, n: int, k: int) -> Band {
    let each = band_share(height, n);
    Band {
        top: single_sum(
            origin,
            single_product(
                single_whole(k),
                single_sum(each, single_whole(CHANNEL_GAP as int)),
            ),
        ),
        height: each,
    }
}

/// The places of `n` channels, one below the other, in an area of the screen.
pub fn band_places(origin: u32, height: u32, n: usize) -> (r: Vec<Band>)
    requires
        n <= 0x20_0000_0000_0000,
    ensures
        r@ == Seq::new(n as nat, |k: int| band_place(origin, height, n as int, k)),
{
    let one = Double::from_i64(1).narrow();
    let gap = Double::from_i64(CHANNEL_GAP).narrow();
    let count = Double::from_i64(n as i64).narrow();
    let between = widen_single(count).minus(widen_single(one)).narrow();
    let gaps = widen_single(between).times(widen_single(gap)).narrow();
    let left = widen_single(height).minus(widen_single(gaps)).narrow();
    let part = widen_single(left).over(widen_single(count)).narrow();
    let each = widen_single(part).max(widen_single(one)).narrow();
    let pitch = widen_single(each).plus(widen_single(gap)).narrow();
    let mut r: Vec<Band> = Vec::new();
    let mut k: usize = 0;
    while k < n
        invariant
            k <= n <= 0x20_0000_0000_0000,
            each == band_share(height, n as int),
            pitch == single_sum(each, single_whole(CHANNEL_GAP as int)),
            r@ =~= Seq::new(k as nat, |j: int| band_place(origin, height, n as int, j)),
        decreases n - k,
    {
        let place = Double::from_i64(k as i64).narrow();
        let down = widen_single(place).times(widen_single(pitch)).narrow();
        let top = widen_single(origin).plus(widen_single(down)).narrow();
        r.push(Band { top, height: each });
        k = k + 1;
    }
    r
}

} // verus!
