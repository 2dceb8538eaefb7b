//! A spectrogram under way and a finished one.
//!
//! The samples of an input are dealt out to its channels, which turn them into
//! blocks. The spectrum of a block and the logarithm of a power are worked out
//! elsewhere; the powers of the blocks of a column are added up here and become levels.
use crate::arith::{negated, product, quotient, sum, whole};
use crate::channel::{
    block_views, drained, flowed, fresh, Block, BlockView, Channel, Geometry, Schedule,
};
use crate::config::{Config, ConfigView};
use crate::convert::narrowed;
use crate::double::Double;
use crate::geometry::{
    compute_geometry, is_laid_out, sized, steps_within_frame, time_error, transform_size,
};
use crate::taper::Values;
use crate::timeparse::error_text;
use vstd::arithmetic::div_mod::{lemma_fundamental_div_mod, lemma_fundamental_div_mod_converse};
use vstd::prelude::*;
use vstd::string::*;

verus! {

/// How many of `len` interleaved samples belong to channel `ch`.
pub open spec fn share(len: int, ch: int, chans: int) -> nat {
    if len <= ch {
        0
    } else {
        ((len - ch + chans - 1) / chans) as nat
    }
}

/// The samples of channel `ch`: every `chans`-th one, from the `ch`-th on.
pub open spec fn dealt(xs: Seq<i32>, ch: int, chans: int) -> Seq<i32> {
    Seq::new(share(xs.len() as int, ch, chans), |i: int| xs[ch + i * chans])
}

/// The samples of one channel.
pub fn deinterleave(samples: &[i32], ch: usize, chans: usize) -> (mono: Vec<i32>)
    requires
        ch < chans,
    ensures
        mono@ == dealt(samples@, ch as int, chans as int),
{
    let mut mono: Vec<i32> = Vec::new();
    let mut f: usize = ch;
    let len = samples.len();
    let ghost n = share(len as int, ch as int, chans as int) as int;
    proof {
        lemma_share(len as int, ch as int, chans as int);
    }
    let ghost mut i: int = 0;
    while f < len
        invariant
            ch < chans,
            len == samples@.len(),
            n == share(len as int, ch as int, chans as int),
            forall|k: int| #![trigger k * chans] 0 <= k && ch + k * chans < len ==> k < n,
            n > 0 ==> ch + (n - 1) * chans < len,
            0 <= i <= n,
            f == ch + i * chans || (f >= len && i == n),
            mono@ =~= dealt(samples@, ch as int, chans as int).take(i),
        decreases len - f,
    {
        assert(f == ch + i * chans);
        mono.push(samples[f]);
        proof {
            assert((i + 1) * chans == i * chans + chans) by (nonlinear_arith);
            if f + chans >= len {
                if i + 1 < n {
                    assert((i + 1) * chans <= (n - 1) * chans) by (nonlinear_arith)
                        requires
                            i + 1 <= n - 1,
                            chans > 0,
                    ;
                }
            }
            i = i + 1;
        }
        if len - f <= chans {
            f = len;
        } else {
            f = f + chans;
        }
    }
    proof {
        if i < n {
            assert(i * chans <= (n - 1) * chans) by (nonlinear_arith)
                requires
                    i <= n - 1,
                    chans > 0,
            ;
        }
    }
    assert(mono@ =~= dealt(samples@, ch as int, chans as int));
    mono
}

/// The share of a channel is the places that are its own.
pub proof fn lemma_share(len: int, ch: int, chans: int)
    requires
        0 <= ch < chans,
        0 <= len,
    ensures
        ({
            let n = share(len, ch, chans) as int;
            &&& forall|k: int| #![trigger k * chans] 0 <= k && ch + k * chans < len ==> k < n
            &&& n > 0 ==> ch + (n - 1) * chans < len
            &&& ch < len ==> n > 0
        }),
{
    let n = share(len, ch, chans) as int;
    if ch < len {
        let v = len - ch + chans - 1;
        lemma_fundamental_div_mod(v, chans);
        let q = v / chans;
        let r = v % chans;
        assert(q >= 1) by (nonlinear_arith)
            requires
                v == chans * q + r,
                0 <= r < chans,
                v >= chans,
        ;
        assert(n == q);
        assert((q - 1) * chans == chans * q - chans) by (nonlinear_arith);
        assert forall|k: int| #![trigger k * chans] 0 <= k && ch + k * chans < len implies k < n by {
            assert(k < q) by (nonlinear_arith)
                requires
                    k * chans < len - ch,
                    v == chans * q + r,
                    v == len - ch + chans - 1,
                    0 <= r < chans,
                    chans > 0,
            ;
        }
    } else {
        assert forall|k: int| #![trigger k * chans] 0 <= k && ch + k * chans < len implies k < n by {
            assert(k * chans >= 0) by (nonlinear_arith)
                requires
                    k >= 0,
                    chans > 0,
            ;
        }
    }
}

/// The levels of one channel, column by column.
#[derive(Debug)]
pub struct Levels {
    rows: i32,
    block_steps: i32,
    gain: i32,
    max: Double,
    dbfs: Vec<u32>,
    magnitudes: Vec<Double>,
}

/// The model of the levels of a channel.
#[verifier::ext_equal]
pub struct LevelsView {
    /// Rows of a column.
    pub rows: int,
    /// Blocks of a column.
    pub block_steps: int,
    /// Added to every level.
    pub gain: int,
    /// The largest level, before the gain, and no less than where it started.
    pub max: Double,
    /// The levels as singles, column by column, each from the lowest row up.
    pub dbfs: Seq<u32>,
    /// The power of each row, added up over the blocks of the column under way.
    pub magnitudes: Seq<Double>,
}

/// How many columns the levels hold.
pub open spec fn columns_of(v: LevelsView) -> int {
    v.dbfs.len() as int / v.rows
}

/// No power in any of `rows` rows.
pub open spec fn silence(rows: int) -> Seq<Double> {
    Seq::new(rows as nat, |i: int| whole(0))
}

/// The power of a component of a spectrum, of which the parts are given.
pub open spec fn power_of(parts: (Double, Double)) -> Double {
    sum(product(parts.0, parts.0), product(parts.1, parts.1))
}

/// The powers of the column under way with those of another block.
pub open spec fn with_block(v: LevelsView, spectrum: Seq<(Double, Double)>) -> LevelsView {
    LevelsView {
        magnitudes: Seq::new(
            v.magnitudes.len(),
            |i: int| sum(v.magnitudes[i], power_of(spectrum[i])),
        ),
        ..v
    }
}

/// What the power of a column is multiplied by: the mean over its blocks, of which
/// the last column may hold fewer.
pub open spec fn block_norm(block_steps: int, tail: Option<int>) -> Double {
    let norm = quotient(whole(1), whole(block_steps));
    match tail {
        None => norm,
        Some(n) => product(norm, quotient(whole(block_steps), whole(n))),
    }
}

/// The mean power of the blocks of the column under way.
pub open spec fn mean_powers(v: LevelsView, tail: Option<int>) -> Seq<Double> {
    Seq::new(
        v.magnitudes.len(),
        |i: int| product(v.magnitudes[i], block_norm(v.block_steps, tail)),
    )
}

/// A level in decibels from the logarithm of a power.
pub open spec fn decibels(log: Double) -> Double {
    product(whole(10), log)
}

/// The largest of `max` and the first `n` levels.
pub open spec fn loudest(max: Double, logs: Seq<Double>, n: nat) -> Double
    decreases n,
{
    if n == 0 {
        max
    } else {
        let before = loudest(max, logs, (n - 1) as nat);
        let db = decibels(logs[n - 1]);
        if before.less(db) {
            db
        } else {
            before
        }
    }
}

/// The levels with another column, given the logarithms of its powers.
pub open spec fn with_column(v: LevelsView, logs: Seq<Double>) -> LevelsView {
    LevelsView {
        max: loudest(v.max, logs, logs.len()),
        dbfs: v.dbfs + Seq::new(
            logs.len(),
            |i: int| narrowed(sum(decibels(logs[i]), whole(v.gain))),
        ),
        magnitudes: silence(v.rows),
        ..v
    }
}

/// A column adds its rows to the levels.
pub proof fn lemma_another_column(v: LevelsView, logs: Seq<Double>)
    requires
        v.rows > 0,
        logs.len() == v.rows,
        v.dbfs.len() == columns_of(v) * v.rows,
    ensures
        columns_of(with_column(v, logs)) == columns_of(v) + 1,
        with_column(v, logs).dbfs.len() == (columns_of(v) + 1) * v.rows,
        with_column(v, logs).magnitudes.len() == v.rows,
{
    let n = columns_of(v);
    assert((n + 1) * v.rows == n * v.rows + v.rows) by (nonlinear_arith);
    lemma_fundamental_div_mod_converse(v.dbfs.len() + v.rows, v.rows, n + 1, 0);
}

impl View for Levels {
    type V = LevelsView;

    closed spec fn view(&self) -> LevelsView {
        LevelsView {
            rows: self.rows as int,
            block_steps: self.block_steps as int,
            gain: self.gain as int,
            max: self.max,
            dbfs: self.dbfs@,
            magnitudes: self.magnitudes@,
        }
    }
}

/// The levels before the first column.
pub open spec fn no_levels(c: ConfigView, geom: Geometry) -> LevelsView {
    LevelsView {
        rows: geom.rows as int,
        block_steps: geom.block_steps as int,
        gain: c.gain,
        max: negated(whole(c.db_range)),
        dbfs: Seq::empty(),
        magnitudes: silence(geom.rows as int),
    }
}

/// No power in any of `rows` rows.
fn quiet(rows: i32) -> (r: Vec<Double>)
    requires
        0 <= rows,
    ensures
        r@ == silence(rows as int),
{
    let zero = Double::from_i64(0);
    let mut r: Vec<Double> = Vec::new();
    let mut i: i32 = 0;
    while i < rows
        invariant
            0 <= i <= rows,
            zero == whole(0),
            r@ =~= silence(i as int),
        decreases rows - i,
    {
        r.push(zero);
        i = i + 1;
    }
    r
}

impl Levels {
    /// No levels yet.
    pub fn new(cfg: &Config, geom: &Geometry) -> (l: Levels)
        requires
            0 <= geom.rows,
        ensures
            l@ == no_levels(cfg@, *geom),
    {
        let l = Levels {
            rows: geom.rows,
            block_steps: geom.block_steps,
            gain: cfg.gain,
            max: Double::from_i64(cfg.db_range as i64).negate(),
            dbfs: Vec::new(),
            magnitudes: quiet(geom.rows),
        };
        proof {
            assert(l.max == negated(whole(cfg.db_range as int)));
            assert(l.dbfs@ =~= Seq::empty());
        }
        l
    }

    /// Adds the power of a block to the column under way, given its spectrum.
    pub fn add(&mut self, spectrum: &[(Double, Double)])
        requires
            spectrum@.len() == old(self)@.magnitudes.len(),
        ensures
            final(self)@ == with_block(old(self)@, spectrum@),
    {
        let ghost start = self.magnitudes@;
        let mut i: usize = 0;
        while i < spectrum.len()
            invariant
                i <= spectrum@.len() == start.len() == self.magnitudes@.len(),
                self.rows == old(self).rows,
                self.block_steps == old(self).block_steps,
                self.gain == old(self).gain,
                self.max == old(self).max,
                self.dbfs == old(self).dbfs,
                forall|k: int|
                    0 <= k < i ==> #[trigger] self.magnitudes@[k] == sum(
                        start[k],
                        power_of(spectrum@[k]),
                    ),
                forall|k: int|
                    i <= k < start.len() ==> #[trigger] self.magnitudes@[k] == start[k],
            decreases spectrum@.len() - i,
        {
            let (re, im) = spectrum[i];
            let power = re.times(re).plus(im.times(im));
            let total = self.magnitudes[i].plus(power);
            self.magnitudes.set(i, total);
            i = i + 1;
        }
        assert(self@ =~= with_block(old(self)@, spectrum@));
    }

    /// The mean power of the blocks of the column under way; `tail` is how many blocks
    /// a last, partial column holds.
    pub fn powers(&self, tail: Option<i32>) -> (r: Vec<Double>)
        ensures
            r@ == mean_powers(
                self@,
                match tail {
                    Some(n) => Some(n as int),
                    None => None,
                },
            ),
    {
        let steps = Double::from_i64(self.block_steps as i64);
        let mut norm = Double::from_i64(1).over(steps);
        if let Some(n) = tail {
            norm = norm.times(steps.over(Double::from_i64(n as i64)));
        }
        let mut r: Vec<Double> = Vec::new();
        let mut i: usize = 0;
        while i < self.magnitudes.len()
            invariant
                i <= self.magnitudes@.len(),
                r@ =~= Seq::new(i as nat, |k: int| product(self.magnitudes@[k], norm)),
            decreases self.magnitudes@.len() - i,
        {
            r.push(self.magnitudes[i].times(norm));
            i = i + 1;
        }
        assert(r@ =~= Seq::new(
            self.magnitudes@.len(),
            |k: int| product(self.magnitudes@[k], norm),
        ));
        r
    }

    /// Adds a column, given the logarithms to base ten of its powers.
    pub fn push(&mut self, logs: &[Double])
        requires
            0 <= old(self)@.rows,
            logs@.len() == old(self)@.rows,
        ensures
            final(self)@ == with_column(old(self)@, logs@),
    {
        let ten = Double::from_i64(10);
        let gain = Double::from_i64(self.gain as i64);
        let ghost start = self.dbfs@;
        let ghost first = self.max;
        let mut i: usize = 0;
        while i < logs.len()
            invariant
                i <= logs@.len(),
                ten == whole(10),
                gain == whole(self.gain as int),
                self.rows == old(self).rows,
                self.block_steps == old(self).block_steps,
                self.gain == old(self).gain,
                self.max == loudest(first, logs@, i as nat),
                self.dbfs@ =~= start + Seq::new(
                    i as nat,
                    |k: int| narrowed(sum(decibels(logs@[k]), gain)),
                ),
            decreases logs@.len() - i,
        {
            let db = ten.times(logs[i]);
            self.dbfs.push(db.plus(gain).narrow());
            if self.max.lt(db) {
                self.max = db;
            }
            i = i + 1;
        }
        self.magnitudes = quiet(self.rows);
        assert(self@ =~= with_column(old(self)@, logs@));
    }

    /// The levels so far.
    pub fn dbfs(&self) -> (r: &Vec<u32>)
        ensures
            r@ == self@.dbfs,
    {
        &self.dbfs
    }

    /// The largest level so far.
    pub fn max(&self) -> (r: Double)
        ensures
            r == self@.max,
    {
        self.max
    }
}

/// A spectrogram under way: every channel has seen the samples so far.
pub struct StreamProcessor {
    cfg: Config,
    geom: Geometry,
    rate: Double,
    channels: Vec<Channel>,
    levels: Vec<Levels>,
}

/// The model of a spectrogram under way.
#[verifier::ext_equal]
pub struct StreamView {
    pub cfg: ConfigView,
    pub geom: Geometry,
    pub rate: Double,
    pub channels: Seq<Schedule>,
    pub levels: Seq<LevelsView>,
}

impl View for StreamProcessor {
    type V = StreamView;

    closed spec fn view(&self) -> StreamView {
        StreamView {
            cfg: self.cfg@,
            geom: self.geom,
            rate: self.rate,
            channels: self.channels@.map_values(|c: Channel| c@),
            levels: self.levels@.map_values(|l: Levels| l@),
        }
    }
}

impl StreamView {
    /// What holds of a spectrogram under way at all times.
    pub open spec fn well_formed(self) -> bool {
        &&& self.geom.well_formed()
        &&& self.channels.len() > 0
        &&& self.levels.len() == self.channels.len()
        &&& forall|ch: int|
            0 <= ch < self.channels.len() ==> {
                &&& (#[trigger] self.channels[ch]).well_formed()
                &&& self.channels[ch].geom == self.geom
            }
        &&& forall|ch: int|
            0 <= ch < self.levels.len() ==> {
                &&& (#[trigger] self.levels[ch]).rows == self.geom.rows
                &&& self.levels[ch].magnitudes.len() == self.geom.rows
                &&& self.levels[ch].dbfs.len() == columns_of(self.levels[ch]) * self.geom.rows
                &&& columns_of(self.levels[ch]) <= self.channels[ch].cols
            }
    }

    /// Whether the levels of every column are there: as many columns in each channel as
    /// the first one has completed.
    pub open spec fn complete(self) -> bool {
        forall|ch: int|
            0 <= ch < self.levels.len() ==> columns_of(#[trigger] self.levels[ch])
                == self.channels[0].cols
    }

    /// Whether `n` more samples for each channel cannot run a column count out of
    /// range; see [`Schedule::has_room`].
    pub open spec fn has_room(self, n: int) -> bool {
        forall|ch: int|
            0 <= ch < self.channels.len() ==> (#[trigger] self.channels[ch]).has_room(n)
    }
}

/// A spectrogram that has seen no sample.
pub open spec fn begun(c: ConfigView, geom: Geometry, rate: Double, chans: nat) -> StreamView {
    StreamView {
        cfg: c,
        geom,
        rate,
        channels: Seq::new(chans, |ch: int| fresh(geom)),
        levels: Seq::new(chans, |ch: int| no_levels(c, geom)),
    }
}

/// The spectrogram once more interleaved samples have arrived.
pub open spec fn pushed(s: StreamView, xs: Seq<i32>) -> StreamView {
    let n = s.channels.len();
    StreamView {
        channels: Seq::new(
            n,
            |ch: int| flowed(s.channels[ch], dealt(xs, ch, n as int)).0,
        ),
        ..s
    }
}

/// The blocks that more samples complete, for each channel.
pub open spec fn pushed_blocks(s: StreamView, xs: Seq<i32>) -> Seq<Seq<BlockView>> {
    let n = s.channels.len();
    Seq::new(n, |ch: int| flowed(s.channels[ch], dealt(xs, ch, n as int)).1)
}

/// The spectrogram once the input has ended.
pub open spec fn ended(s: StreamView) -> StreamView {
    StreamView {
        channels: Seq::new(s.channels.len(), |ch: int| drained(s.channels[ch]).state),
        ..s
    }
}

/// What is left of a channel when its input ends.
#[derive(Debug)]
pub struct Rest {
    /// The blocks that the end of the input completes.
    pub blocks: Vec<Block>,
    /// How many blocks the last, partial column holds, if there is one.
    pub tail: Option<i32>,
}

impl StreamProcessor {
    /// A spectrogram for an input of `total_len` samples in all channels; see
    /// [`compute_geometry`] for `values`.
    pub fn new(
        cfg: Config,
        rate: Double,
        channels: u32,
        total_len: u64,
        values: &Values,
    ) -> (r: Result<StreamProcessor, String>)
        requires
            channels > 0 ==> {
                &&& sized(cfg@, channels as int)
                &&& values.serve(
                    cfg.win_type,
                    (transform_size(cfg@, channels as int) + 1) as nat,
                )
                &&& steps_within_frame(cfg@, rate, channels as int, total_len, *values)
            },
        ensures
            ({
                let len = (total_len as int / channels as int) as u64;
                if channels == 0 {
                    r matches Err(text) && text@ == "input has no channels"@
                } else {
                    match time_error(cfg@, len) {
                        Some(e) => r matches Err(text) && text@ == error_text(e),
                        None => {
                            &&& r matches Ok(p)
                            &&& p@.well_formed()
                            &&& is_laid_out(
                                p@.geom,
                                cfg@,
                                rate,
                                channels as int,
                                total_len,
                                *values,
                            )
                            &&& p@ == begun(cfg@, p@.geom, rate, channels as nat)
                        },
                    }
                }
            }),
    {
        if channels == 0 {
            return Err("input has no channels".to_string());
        }
        let geom = match compute_geometry(&cfg, rate, channels, total_len, values) {
            Err(e) => return Err(e),
            Ok(g) => g,
        };
        let mut list: Vec<Channel> = Vec::new();
        let mut levels: Vec<Levels> = Vec::new();
        let mut ch: u32 = 0;
        while ch < channels
            invariant
                ch <= channels,
                geom.well_formed(),
                list@.len() == ch,
                levels@.len() == ch,
                forall|k: int| 0 <= k < ch ==> (#[trigger] list@[k])@ == fresh(geom),
                forall|k: int| 0 <= k < ch ==> (#[trigger] list@[k])@.well_formed(),
                forall|k: int| 0 <= k < ch ==> (#[trigger] levels@[k])@ == no_levels(cfg@, geom),
            decreases channels - ch,
        {
            list.push(Channel::new(&geom));
            levels.push(Levels::new(&cfg, &geom));
            ch = ch + 1;
        }
        let p = StreamProcessor { cfg, geom, rate, channels: list, levels };
        assert(p@ =~= begun(cfg@, geom, rate, channels as nat));
        assert(p@.well_formed()) by {
            assert forall|k: int| 0 <= k < channels implies {
                &&& (#[trigger] p@.levels[k]).dbfs.len() == columns_of(p@.levels[k]) * geom.rows
                &&& columns_of(p@.levels[k]) == 0
            } by {
                lemma_fundamental_div_mod_converse(0, geom.rows as int, 0, 0);
            }
            assert forall|k: int| 0 <= k < channels implies (#[trigger] p@.channels[k]).well_formed()
                && p@.channels[k].geom == geom by {
                assert(p@.channels[k] == list@[k]@);
            }
        }
        Ok(p)
    }

    /// Takes more interleaved samples and returns the blocks that they complete, for
    /// each channel.
    pub fn push(&mut self, interleaved: &[i32]) -> (blocks: Vec<Vec<Block>>)
        requires
            old(self)@.well_formed(),
            old(self)@.has_room(interleaved@.len() as int),
        ensures
            final(self)@.well_formed(),
            final(self)@ == pushed(old(self)@, interleaved@),
            blocks@.len() == old(self)@.channels.len(),
            forall|ch: int|
                0 <= ch < blocks@.len() ==> block_views((#[trigger] blocks@[ch])@)
                    == pushed_blocks(old(self)@, interleaved@)[ch],
    {
        let ghost before = self@;
        let chans = self.channels.len();
        let mut blocks: Vec<Vec<Block>> = Vec::new();
        let mut ch: usize = 0;
        while ch < chans
            invariant
                ch <= chans == self.channels@.len() == before.channels.len(),
                before == old(self)@,
                before.well_formed(),
                before.has_room(interleaved@.len() as int),
                self.cfg == old(self).cfg,
                self.geom == old(self).geom,
                self.rate == old(self).rate,
                self.levels == old(self).levels,
                blocks@.len() == ch,
                forall|k: int|
                    ch <= k < chans ==> (#[trigger] self.channels@[k])@ == before.channels[k],
                forall|k: int|
                    0 <= k < ch ==> {
                        let (state, made) = flowed(
                            before.channels[k],
                            dealt(interleaved@, k, chans as int),
                        );
                        &&& (#[trigger] self.channels@[k])@ == state
                        &&& state.well_formed()
                        &&& state.geom == before.geom
                        &&& before.channels[k].cols <= state.cols
                        &&& block_views(blocks@[k]@) == made
                    },
            decreases chans - ch,
        {
            proof {
                lemma_share_fits(interleaved@.len() as int, ch as int, chans as int);
                assert(before.channels[ch as int].has_room(interleaved@.len() as int));
            }
            let mono = deinterleave(interleaved, ch, chans);
            let made = self.channels[ch].flow(mono.as_slice());
            blocks.push(made);
            ch = ch + 1;
        }
        proof {
            assert(self@ =~= pushed(before, interleaved@));
            assert forall|k: int| 0 <= k < chans implies (#[trigger] self@.channels[k]).well_formed()
                && self@.channels[k].geom == self@.geom by {
                assert(self@.channels[k] == self.channels@[k]@);
            }
            assert forall|k: int| 0 <= k < chans implies columns_of(#[trigger] self@.levels[k])
                <= self@.channels[k].cols by {
                assert(self@.channels[k] == self.channels@[k]@);
                assert(columns_of(before.levels[k]) <= before.channels[k].cols);
            }
            assert forall|k: int| 0 <= k < chans implies block_views((#[trigger] blocks@[k])@)
                == pushed_blocks(before, interleaved@)[k] by {
                assert(self.channels@[k]@ == self@.channels[k]);
            }
        }
        blocks
    }

    /// Ends the input, and returns what is left for each channel.
    pub fn finish(&mut self) -> (rest: Vec<Rest>)
        requires
            old(self)@.well_formed(),
            old(self)@.has_room(old(self)@.geom.dft_size + old(self)@.geom.step_size + 1),
        ensures
            final(self)@.well_formed(),
            final(self)@ == ended(old(self)@),
            rest@.len() == old(self)@.channels.len(),
            forall|ch: int|
                0 <= ch < rest@.len() ==> {
                    let d = drained(old(self)@.channels[ch]);
                    &&& block_views((#[trigger] rest@[ch]).blocks@) == d.blocks
                    &&& match rest@[ch].tail {
                        Some(n) => d.tail == Some(n as int),
                        None => d.tail is None,
                    }
                },
    {
        let ghost before = self@;
        let chans = self.channels.len();
        let mut rest: Vec<Rest> = Vec::new();
        let mut ch: usize = 0;
        while ch < chans
            invariant
                ch <= chans == self.channels@.len() == before.channels.len(),
                before == old(self)@,
                before.well_formed(),
                before.has_room(before.geom.dft_size + before.geom.step_size + 1),
                self.cfg == old(self).cfg,
                self.geom == old(self).geom,
                self.rate == old(self).rate,
                self.levels == old(self).levels,
                rest@.len() == ch,
                forall|k: int|
                    ch <= k < chans ==> (#[trigger] self.channels@[k])@ == before.channels[k],
                forall|k: int|
                    0 <= k < ch ==> {
                        let d = drained(before.channels[k]);
                        &&& (#[trigger] self.channels@[k])@ == d.state
                        &&& d.state.well_formed()
                        &&& d.state.geom == before.geom
                        &&& before.channels[k].cols <= d.state.cols
                        &&& block_views(rest@[k].blocks@) == d.blocks
                        &&& match rest@[k].tail {
                            Some(n) => d.tail == Some(n as int),
                            None => d.tail is None,
                        }
                    },
            decreases chans - ch,
        {
            assert(before.channels[ch as int].has_room(
                before.geom.dft_size + before.geom.step_size + 1,
            ));
            let (blocks, tail) = self.channels[ch].drain();
            rest.push(Rest { blocks, tail });
            ch = ch + 1;
        }
        proof {
            assert(self@ =~= ended(before));
            assert forall|k: int| 0 <= k < chans implies (#[trigger] self@.channels[k]).well_formed()
                && self@.channels[k].geom == self@.geom by {
                assert(self@.channels[k] == self.channels@[k]@);
            }
            assert forall|k: int| 0 <= k < chans implies columns_of(#[trigger] self@.levels[k])
                <= self@.channels[k].cols by {
                assert(self@.channels[k] == self.channels@[k]@);
                assert(columns_of(before.levels[k]) <= before.channels[k].cols);
            }
            assert forall|k: int| 0 <= k < chans implies {
                let d = drained(before.channels[k]);
                &&& block_views((#[trigger] rest@[k]).blocks@) == d.blocks
                &&& match rest@[k].tail {
                    Some(n) => d.tail == Some(n as int),
                    None => d.tail is None,
                }
            } by {
                assert(self.channels@[k]@ == self@.channels[k]);
            }
        }
        rest
    }
}

/// A spectrogram with another column for channel `ch`.
pub open spec fn recorded(s: StreamView, ch: int, logs: Seq<Double>) -> StreamView {
    StreamView { levels: s.levels.update(ch, with_column(s.levels[ch], logs)), ..s }
}

/// A spectrogram with another block for channel `ch`.
pub open spec fn heard(s: StreamView, ch: int, spectrum: Seq<(Double, Double)>) -> StreamView {
    StreamView { levels: s.levels.update(ch, with_block(s.levels[ch], spectrum)), ..s }
}

impl StreamProcessor {
    /// Adds the power of a block of channel `ch`; see [`Levels::add`].
    pub fn add(&mut self, ch: usize, spectrum: &[(Double, Double)])
        requires
            old(self)@.well_formed(),
            ch < old(self)@.channels.len(),
            spectrum@.len() == old(self)@.geom.rows,
        ensures
            final(self)@.well_formed(),
            final(self)@ == heard(old(self)@, ch as int, spectrum@),
    {
        let ghost before = self@;
        assert(before.levels[ch as int].magnitudes.len() == before.geom.rows);
        self.levels[ch].add(spectrum);
        proof {
            assert(self@ =~= heard(before, ch as int, spectrum@));
            assert forall|k: int| 0 <= k < self@.levels.len() implies {
                &&& (#[trigger] self@.levels[k]).rows == self@.geom.rows
                &&& self@.levels[k].magnitudes.len() == self@.geom.rows
                &&& self@.levels[k].dbfs.len() == columns_of(self@.levels[k]) * self@.geom.rows
                &&& columns_of(self@.levels[k]) <= self@.channels[k].cols
            } by {
                assert(before.levels[k].rows == before.geom.rows);
            }
        }
    }

    /// Adds the power of a block of channel `ch`, given its spectrum. Where the block
    /// completes a column, its mean powers are returned, of which [`StreamProcessor::record`]
    /// takes the logarithms.
    pub fn hear(&mut self, ch: usize, block: &Block, spectrum: &[(Double, Double)]) -> (powers:
        Option<Vec<Double>>)
        requires
            old(self)@.well_formed(),
            ch < old(self)@.channels.len(),
            spectrum@.len() == old(self)@.geom.rows,
        ensures
            final(self)@.well_formed(),
            final(self)@ == heard(old(self)@, ch as int, spectrum@),
            powers is Some <==> block.column,
            powers matches Some(p) ==> p@ == mean_powers(final(self)@.levels[ch as int], None),
    {
        self.add(ch, spectrum);
        if block.column {
            Some(self.powers(ch, None))
        } else {
            None
        }
    }

    /// The mean power of the column of channel `ch` under way; see [`Levels::powers`].
    pub fn powers(&self, ch: usize, tail: Option<i32>) -> (r: Vec<Double>)
        requires
            self@.well_formed(),
            ch < self@.channels.len(),
        ensures
            r@ == mean_powers(
                self@.levels[ch as int],
                match tail {
                    Some(n) => Some(n as int),
                    None => None,
                },
            ),
    {
        self.levels[ch].powers(tail)
    }

    /// Whether channel `ch` has completed a column that has no levels yet.
    pub fn due(&self, ch: usize) -> (b: bool)
        requires
            self@.well_formed(),
            ch < self@.channels.len(),
        ensures
            b == (columns_of(self@.levels[ch as int]) < self@.channels[ch as int].cols),
    {
        assert(self@.levels[ch as int].rows == self@.geom.rows);
        assert(self@.channels[ch as int].well_formed());
        let held: usize = self.levels[ch].dbfs().len() / self.geom.rows as usize;
        held < self.channels[ch].cols() as usize
    }

    /// Adds a column to channel `ch`, which has completed it; see [`Levels::push`].
    pub fn record(&mut self, ch: usize, logs: &[Double])
        requires
            old(self)@.well_formed(),
            ch < old(self)@.channels.len(),
            logs@.len() == old(self)@.geom.rows,
            columns_of(old(self)@.levels[ch as int]) < old(self)@.channels[ch as int].cols,
        ensures
            final(self)@.well_formed(),
            final(self)@ == recorded(old(self)@, ch as int, logs@),
    {
        let ghost before = self@;
        assert(before.levels[ch as int].rows == before.geom.rows);
        self.levels[ch].push(logs);
        proof {
            assert(self@ =~= recorded(before, ch as int, logs@));
            lemma_another_column(before.levels[ch as int], logs@);
            assert forall|k: int| 0 <= k < self@.levels.len() implies {
                &&& (#[trigger] self@.levels[k]).rows == self@.geom.rows
                &&& self@.levels[k].magnitudes.len() == self@.geom.rows
                &&& self@.levels[k].dbfs.len() == columns_of(self@.levels[k]) * self@.geom.rows
                &&& columns_of(self@.levels[k]) <= self@.channels[k].cols
            } by {
                assert(before.levels[k].rows == before.geom.rows);
            }
        }
    }

    /// Columns completed so far, by the first channel; see
    /// [`crate::channel_laws::law_channels_advance_in_lockstep`] for the others.
    pub fn cols_done(&self) -> (n: i32)
        requires
            self@.well_formed(),
        ensures
            n == self@.channels[0].cols,
    {
        self.channels[0].cols()
    }

    /// Columns the image has room for.
    pub fn x_size(&self) -> (n: i32)
        ensures
            n == self@.geom.x_size,
    {
        self.geom.x_size
    }

    /// Rows of a channel.
    pub fn rows(&self) -> (n: i32)
        ensures
            n == self@.geom.rows,
    {
        self.geom.rows
    }

    /// Channels.
    pub fn chans(&self) -> (n: usize)
        ensures
            n == self@.channels.len(),
    {
        self.channels.len()
    }

    /// Samples of a channel for a second.
    pub fn rate(&self) -> (r: Double)
        ensures
            r == self@.rate,
    {
        self.rate
    }

    /// Samples between two blocks.
    pub fn step_size(&self) -> (n: i32)
        ensures
            n == self@.geom.step_size,
    {
        self.geom.step_size
    }

    /// Blocks of a column.
    pub fn block_steps(&self) -> (n: i32)
        ensures
            n == self@.geom.block_steps,
    {
        self.geom.block_steps
    }

    /// The length of the transform.
    pub fn dft_size(&self) -> (n: i32)
        ensures
            n == self@.geom.dft_size,
    {
        self.geom.dft_size
    }

    /// The options.
    pub fn cfg(&self) -> (c: &Config)
        ensures
            c@ == self@.cfg,
    {
        &self.cfg
    }

    /// The levels of a channel so far, column by column.
    pub fn channel_dbfs(&self, ch: usize) -> (r: &Vec<u32>)
        requires
            self@.well_formed(),
            ch < self@.channels.len(),
        ensures
            r@ == self@.levels[ch as int].dbfs,
    {
        self.levels[ch].dbfs()
    }

    /// The spectrogram as it stands. The first channel says how many columns it has
    /// and which level is the largest.
    pub fn into_spectrogram(self) -> (r: Spectrogram)
        requires
            self@.well_formed(),
        ensures
            r@ == spectrogram_of(self@),
            self@.complete() ==> forall|ch: int|
                0 <= ch < r@.chans ==> (#[trigger] r@.dbfs[ch]).len() == r@.rows * r@.cols,
    {
        let chans = self.channels.len();
        let cols = self.channels[0].cols();
        let max = self.levels[0].max();
        let ghost view = self@;
        let mut dbfs: Vec<Vec<u32>> = Vec::new();
        let mut ch: usize = 0;
        while ch < chans
            invariant
                ch <= chans == self.levels@.len() == view.levels.len(),
                view == self@,
                dbfs@.len() == ch,
                forall|k: int| 0 <= k < ch ==> (#[trigger] dbfs@[k])@ == view.levels[k].dbfs,
            decreases chans - ch,
        {
            let copy = self.levels[ch].dbfs().clone();
            assert(copy@ =~= self.levels@[ch as int]@.dbfs);
            dbfs.push(copy);
            ch = ch + 1;
        }
        let r = Spectrogram {
            cfg: self.cfg,
            chans,
            rows: self.geom.rows,
            cols,
            step_size: self.geom.step_size,
            block_steps: self.geom.block_steps,
            rate: self.rate,
            dbfs,
            max,
        };
        assert(r@ =~= spectrogram_of(view)) by {
            assert(r@.dbfs =~= spectrogram_of(view).dbfs);
        }
        assert forall|k: int| view.complete() && 0 <= k < chans implies (
        #[trigger] r@.dbfs[k]).len() == r@.rows * r@.cols by {
            assert(view.levels[k].dbfs.len() == columns_of(view.levels[k]) * view.geom.rows);
            assert(columns_of(view.levels[k]) == cols);
            assert(cols * r.rows == r.rows * cols) by (nonlinear_arith);
        }
        r
    }
}

/// A finished spectrogram, with everything that is needed to draw it.
pub struct Spectrogram {
    pub cfg: Config,
    pub chans: usize,
    pub rows: i32,
    pub cols: i32,
    pub step_size: i32,
    pub block_steps: i32,
    pub rate: Double,
    /// The levels of each channel as singles, column by column, each from the lowest
    /// row up.
    pub dbfs: Vec<Vec<u32>>,
    pub max: Double,
}

/// The model of a finished spectrogram.
#[verifier::ext_equal]
pub struct SpectrogramView {
    pub cfg: ConfigView,
    pub chans: nat,
    pub rows: int,
    pub cols: int,
    pub step_size: int,
    pub block_steps: int,
    pub rate: Double,
    pub dbfs: Seq<Seq<u32>>,
    pub max: Double,
}

impl View for Spectrogram {
    type V = SpectrogramView;

    open spec fn view(&self) -> SpectrogramView {
        SpectrogramView {
            cfg: self.cfg@,
            chans: self.chans as nat,
            rows: self.rows as int,
            cols: self.cols as int,
            step_size: self.step_size as int,
            block_steps: self.block_steps as int,
            rate: self.rate,
            dbfs: self.dbfs@.map_values(|d: Vec<u32>| d@),
            max: self.max,
        }
    }
}

/// A spectrogram under way, as it stands.
pub open spec fn spectrogram_of(s: StreamView) -> SpectrogramView {
    SpectrogramView {
        cfg: s.cfg,
        chans: s.channels.len(),
        rows: s.geom.rows as int,
        cols: s.channels[0].cols,
        step_size: s.geom.step_size as int,
        block_steps: s.geom.block_steps as int,
        rate: s.rate,
        dbfs: s.levels.map_values(|l: LevelsView| l.dbfs),
        max: s.levels[0].max,
    }
}

proof fn lemma_share_fits(len: int, ch: int, chans: int)
    requires
        0 <= ch < chans,
        0 <= len,
    ensures
        share(len, ch, chans) <= len,
{
    lemma_share(len, ch, chans);
    let n = share(len, ch, chans) as int;
    if n > 0 {
        assert((n - 1) * chans >= n - 1) by (nonlinear_arith)
            requires
                n >= 1,
                chans >= 1,
        ;
    }
}

} // verus!
