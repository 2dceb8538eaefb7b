//! The viewer: what keys do, which messages of a load are heeded, and what is shown.
use crate::arith::{quotient, saturated, whole, whole_part};
use crate::config::{default_config, finalized, Config, ConfigView};
use crate::double::Double;
use crate::geometry::cut_quotient;
use crate::gradient::{next_palette, Palette};
use crate::legend::{seconds, seconds_of};
use crate::spectrogram::{Spectrogram, SpectrogramView, StreamProcessor, StreamView};
use crate::window::{next_window, WindowType};
use vstd::prelude::*;
use vstd::string::*;

verus! {

/// The columns that are computed.
pub const RENDER_COLS: i32 = 2400;

/// The rows that are computed for all channels.
pub const RENDER_HEIGHT: i32 = 1320;

/// What of the analysis can be changed while looking.
#[derive(Clone, Copy, Debug, PartialEq, Eq, Structural)]
pub struct Analysis {
    /// The length of the transform; without one it follows from the height.
    pub fft_size: Option<i32>,
    pub win_type: WindowType,
    pub palette: Palette,
}

/// The lengths of the transform to choose from: the powers of two from 128 to 16384.
pub open spec fn is_fft_size(n: int) -> bool {
    ||| n == 128
    ||| n == 256
    ||| n == 512
    ||| n == 1024
    ||| n == 2048
    ||| n == 4096
    ||| n == 8192
    ||| n == 16384
}

/// The smallest length above `cur`, or the smallest of all where there is none.
pub open spec fn larger_fft(cur: int) -> int {
    if cur < 128 {
        128
    } else if cur < 256 {
        256
    } else if cur < 512 {
        512
    } else if cur < 1024 {
        1024
    } else if cur < 2048 {
        2048
    } else if cur < 4096 {
        4096
    } else if cur < 8192 {
        8192
    } else if cur < 16384 {
        16384
    } else {
        128
    }
}

/// The largest length below `cur`, or the largest of all where there is none.
pub open spec fn smaller_fft(cur: int) -> int {
    if cur > 16384 {
        16384
    } else if cur > 8192 {
        8192
    } else if cur > 4096 {
        4096
    } else if cur > 2048 {
        2048
    } else if cur > 1024 {
        1024
    } else if cur > 512 {
        512
    } else if cur > 256 {
        256
    } else if cur > 128 {
        128
    } else {
        16384
    }
}

/// The next larger length.
pub fn fft_up(cur: i32) -> (next: i32)
    ensures
        next == larger_fft(cur as int),
{
    if cur >= 16384 {
        return 128;
    }
    let mut n: i32 = 128;
    while n <= cur
        invariant
            cur < 16384,
            is_fft_size(n as int),
            n == 128 || cur >= n / 2,
        decreases 16384 - n,
    {
        n = n * 2;
    }
    n
}

/// The next smaller length.
pub fn fft_down(cur: i32) -> (next: i32)
    ensures
        next == smaller_fft(cur as int),
{
    if cur <= 128 {
        return 16384;
    }
    let mut n: i32 = 16384;
    while n >= cur
        invariant
            cur > 128,
            is_fft_size(n as int),
            n == 16384 || cur <= 2 * n,
        decreases n,
    {
        n = n / 2;
    }
    n
}

/// A step up and a step down undo each other, round the ends too, and both stay among
/// the lengths.
pub proof fn law_fft_steps_undo(n: int)
    requires
        is_fft_size(n),
    ensures
        smaller_fft(larger_fft(n)) == n,
        larger_fft(smaller_fft(n)) == n,
        is_fft_size(larger_fft(n)),
        is_fft_size(smaller_fft(n)),
{
}

/// A step from any length leads to the nearest of the lengths in its direction.
pub proof fn law_fft_steps_to_the_nearest(cur: int, n: int)
    requires
        is_fft_size(n),
    ensures
        cur < n ==> cur < larger_fft(cur) <= n,
        n < cur ==> n <= smaller_fft(cur) < cur,
{
}

/// What the axes are drawn from.
#[derive(Clone, Copy, Debug, PartialEq, Eq, Structural)]
pub struct SpecMeta {
    pub rate: Double,
    pub channels: i32,
    pub cols: i32,
    pub step_size: i32,
    pub block_steps: i32,
    pub db_range: i32,
    pub dft_size: i32,
}

/// What the axes of a spectrogram are drawn from.
pub open spec fn meta_of(s: SpectrogramView) -> SpecMeta {
    SpecMeta {
        rate: s.rate,
        channels: s.chans as i32,
        cols: s.cols as i32,
        step_size: s.step_size as i32,
        block_steps: s.block_steps as i32,
        db_range: s.cfg.db_range as i32,
        dft_size: (2 * (s.rows - 1)) as i32,
    }
}

/// What the axes of a spectrogram under way are drawn from.
pub open spec fn meta_under_way(s: StreamView) -> SpecMeta {
    SpecMeta {
        rate: s.rate,
        channels: s.channels.len() as i32,
        cols: s.geom.x_size,
        step_size: s.geom.step_size,
        block_steps: s.geom.block_steps,
        db_range: s.cfg.db_range as i32,
        dft_size: (2 * (s.geom.rows - 1)) as i32,
    }
}

impl SpecMeta {
    /// What the axes of a spectrogram are drawn from.
    pub fn from_spec(spec: &Spectrogram) -> (m: SpecMeta)
        requires
            spec.chans <= i32::MAX,
            -0x3FFF_FFFF <= spec.rows <= 0x4000_0000,
        ensures
            m.rate == spec@.rate,
            m.channels == spec@.chans,
            m.cols == spec@.cols,
            m.step_size == spec@.step_size,
            m.block_steps == spec@.block_steps,
            m.db_range == spec@.cfg.db_range,
            m.dft_size == (spec@.rows - 1) * 2,
            m == meta_of(spec@),
    {
        SpecMeta {
            rate: spec.rate,
            channels: spec.chans as i32,
            cols: spec.cols,
            step_size: spec.step_size,
            block_steps: spec.block_steps,
            db_range: spec.cfg.db_range,
            dft_size: (spec.rows - 1) * 2,
        }
    }

    /// What the axes of a spectrogram under way are drawn from: the columns are those
    /// that it will have.
    pub fn from_stream(p: &StreamProcessor) -> (m: SpecMeta)
        requires
            p@.well_formed(),
            p@.channels.len() <= i32::MAX,
        ensures
            m.rate == p@.rate,
            m.channels == p@.channels.len(),
            m.cols == p@.geom.x_size,
            m.step_size == p@.geom.step_size,
            m.block_steps == p@.geom.block_steps,
            m.db_range == p@.cfg.db_range,
            m.dft_size == (p@.geom.rows - 1) * 2,
            m == meta_under_way(p@),
    {
        SpecMeta {
            rate: p.rate(),
            channels: p.chans() as i32,
            cols: p.x_size(),
            step_size: p.step_size(),
            block_steps: p.block_steps(),
            db_range: p.cfg().db_range,
            dft_size: (p.rows() - 1) * 2,
        }
    }

    /// The seconds that the columns stand for.
    pub fn time_span(&self) -> (s: Double)
        ensures
            s == seconds_of(
                self.cols as int,
                self.step_size as int,
                self.block_steps as int,
                self.rate,
            ),
    {
        seconds(self.cols, self.step_size, self.block_steps, self.rate)
    }

    /// The highest frequency.
    pub fn nyquist(&self) -> (f: Double)
        ensures
            f == quotient(self.rate, whole(2)),
    {
        self.rate.over(Double::from_i64(2))
    }
}

/// The rows for a transform of `n` points.
pub open spec fn fft_rows(n: int) -> int {
    cut_quotient(n, 2) + 1
}

/// What the viewer computes, before it is final.
pub open spec fn viewer_config(a: Analysis) -> ConfigView {
    ConfigView {
        x_size0: RENDER_COLS as int,
        win_type: a.win_type,
        palette: a.palette,
        y_size: match a.fft_size {
            Some(n) => fft_rows(n as int),
            None => 0,
        },
        big_y_size: match a.fft_size {
            Some(_) => 0,
            None => RENDER_HEIGHT as int,
        },
        ..default_config()
    }
}

/// The options that the viewer computes with.
pub fn gui_config(analysis: Analysis) -> (r: Result<Config, String>)
    ensures
        r matches Ok(c) && c@ == finalized(viewer_config(analysis)),
{
    let mut cfg = Config::default();
    cfg.x_size0 = RENDER_COLS;
    cfg.win_type = analysis.win_type;
    cfg.palette = analysis.palette;
    match analysis.fft_size {
        Some(n) => {
            cfg.y_size = if n < 0 {
                1 - (-(n as i64) / 2) as i32
            } else {
                n / 2 + 1
            };
        },
        None => {
            cfg.big_y_size = RENDER_HEIGHT;
        },
    }
    assert(cfg@ =~= viewer_config(analysis));
    cfg.finalize()
}

/// The two lines above the spectrogram.
#[derive(Debug)]
pub struct TrackInfo {
    pub line1: String,
    pub line2: String,
}

/// A message of a load.
pub enum LoadMsg<I> {
    /// A file is being loaded.
    Start(String),
    /// The axes can be drawn.
    Meta(SpecMeta, TrackInfo),
    /// The columns so far.
    Frame(Vec<I>),
    /// All columns.
    Done(Vec<I>),
    /// The load has failed.
    Failed(String),
}

/// What the viewer holds. `I` is an image of a channel.
pub struct Viewer<I> {
    generation: u64,
    analysis: Analysis,
    loaded: bool,
    status: String,
    info: TrackInfo,
    meta: Option<SpecMeta>,
    images: Vec<I>,
}

/// The model of a viewer.
#[verifier::ext_equal]
pub struct ViewerView<I> {
    /// The number of the load that counts.
    pub generation: u64,
    pub analysis: Analysis,
    /// Whether there is a file.
    pub loaded: bool,
    pub status: Seq<char>,
    pub line1: Seq<char>,
    pub line2: Seq<char>,
    pub meta: Option<SpecMeta>,
    pub images: Seq<I>,
}

impl<I> View for Viewer<I> {
    type V = ViewerView<I>;

    closed spec fn view(&self) -> ViewerView<I> {
        ViewerView {
            generation: self.generation,
            analysis: self.analysis,
            loaded: self.loaded,
            status: self.status@,
            line1: self.info.line1@,
            line2: self.info.line2@,
            meta: self.meta,
            images: self.images@,
        }
    }
}

/// A load to start.
#[derive(Clone, Copy, Debug, PartialEq, Eq, Structural)]
pub struct Load {
    pub generation: u64,
    pub analysis: Analysis,
}

/// The number of the next load.
pub open spec fn next_generation(n: u64) -> u64 {
    ((n + 1) % 0x1_0000_0000_0000_0000) as u64
}

/// A viewer with a load started.
pub open spec fn loading<I>(v: ViewerView<I>, analysis: Analysis) -> ViewerView<I> {
    ViewerView {
        generation: next_generation(v.generation),
        analysis,
        loaded: true,
        ..v
    }
}

/// The length of the transform that is in effect.
pub open spec fn fft_in_effect<I>(v: ViewerView<I>) -> int {
    match v.analysis.fft_size {
        Some(n) => n as int,
        None => match v.meta {
            Some(m) => m.dft_size as int,
            None => 1024,
        },
    }
}

/// What a message says.
#[verifier::ext_equal]
pub enum MsgView<I> {
    Start(Seq<char>),
    Meta(SpecMeta, Seq<char>, Seq<char>),
    Frame(Seq<I>),
    Done(Seq<I>),
    Failed(Seq<char>),
}

impl<I> View for LoadMsg<I> {
    type V = MsgView<I>;

    open spec fn view(&self) -> MsgView<I> {
        match self {
            LoadMsg::Start(name) => MsgView::Start(name@),
            LoadMsg::Meta(m, info) => MsgView::Meta(*m, info.line1@, info.line2@),
            LoadMsg::Frame(images) => MsgView::Frame(images@),
            LoadMsg::Done(images) => MsgView::Done(images@),
            LoadMsg::Failed(text) => MsgView::Failed(text@),
        }
    }
}

/// The viewer once a message of load `generation` has come in: only those of the last
/// load count.
pub open spec fn informed<I>(v: ViewerView<I>, generation: u64, msg: MsgView<I>) -> ViewerView<I> {
    if generation != v.generation {
        v
    } else {
        match msg {
            MsgView::Start(name) => ViewerView {
                status: "Loading "@ + name + "…"@,
                images: Seq::empty(),
                ..v
            },
            MsgView::Meta(m, line1, line2) => ViewerView { meta: Some(m), line1, line2, ..v },
            MsgView::Frame(images) => ViewerView { images, ..v },
            MsgView::Done(images) => ViewerView { images, ..v },
            MsgView::Failed(text) => ViewerView { status: text, images: Seq::empty(), ..v },
        }
    }
}

/// A key, once its name and modifiers are known.
#[derive(Clone, Copy, Debug, PartialEq, Eq, Structural)]
pub struct KeyPress {
    pub key: Key,
    pub shift: bool,
    /// Whether the key repeats, or comes with a modifier other than shift.
    pub ignored: bool,
}

/// The keys that do something.
#[derive(Clone, Copy, Debug, PartialEq, Eq, Structural)]
pub enum Key {
    F,
    W,
    C,
    Other,
}

impl<I> Viewer<I> {
    /// A viewer without a file.
    pub fn new(fft_size: Option<i32>) -> (v: Viewer<I>)
        ensures
            v@ == (ViewerView::<I> {
                generation: 0,
                analysis: Analysis { fft_size, win_type: WindowType::Hann, palette: Palette::Sox },
                loaded: false,
                status: "Drag and drop an audio file."@,
                line1: ""@,
                line2: ""@,
                meta: None,
                images: Seq::empty(),
            }),
    {
        let v = Viewer {
            generation: 0,
            analysis: Analysis { fft_size, win_type: WindowType::Hann, palette: Palette::Sox },
            loaded: false,
            status: "Drag and drop an audio file.".to_string(),
            info: TrackInfo { line1: "".to_string(), line2: "".to_string() },
            meta: None,
            images: Vec::new(),
        };
        assert(v@.images =~= Seq::empty());
        v
    }

    /// Starts a load, which takes the place of any other.
    pub fn load(&mut self) -> (load: Load)
        ensures
            final(self)@ == loading(old(self)@, old(self)@.analysis),
            load.generation == final(self)@.generation,
            load.analysis == final(self)@.analysis,
    {
        self.loaded = true;
        self.generation = self.generation.wrapping_add(1);
        proof {
            assert(self.generation == next_generation(old(self)@.generation));
            assert(self@ =~= loading(old(self)@, old(self)@.analysis));
        }
        Load { generation: self.generation, analysis: self.analysis }
    }

    /// The length of the transform that is in effect: the one that was chosen, else the
    /// one of the file, else 1024.
    pub fn current_fft(&self) -> (n: i32)
        ensures
            n == fft_in_effect(self@),
    {
        match self.analysis.fft_size {
            Some(n) => n,
            None => match self.meta {
                Some(m) => m.dft_size,
                None => 1024,
            },
        }
    }

    /// Steps the length of the transform up or down, and loads the file again; without
    /// a file nothing happens.
    pub fn cycle_fft(&mut self, down: bool) -> (load: Option<Load>)
        ensures
            match load {
                None => !old(self)@.loaded && final(self)@ == old(self)@,
                Some(l) => {
                    let cur = fft_in_effect(old(self)@);
                    &&& old(self)@.loaded
                    &&& final(self)@ == loading(old(self)@, l.analysis)
                    &&& l.generation == final(self)@.generation
                    &&& l.analysis.win_type == old(self)@.analysis.win_type
                    &&& l.analysis.palette == old(self)@.analysis.palette
                    &&& l.analysis.fft_size matches Some(n)
                    &&& n == if down {
                        smaller_fft(cur)
                    } else {
                        larger_fft(cur)
                    }
                },
            },
    {
        if !self.loaded {
            return None;
        }
        let cur = self.current_fft();
        let ghost before = self@;
        let size = if down {
            fft_down(cur)
        } else {
            fft_up(cur)
        };
        self.analysis = Analysis { fft_size: Some(size), ..self.analysis };
        let load = self.load();
        assert(self@ =~= loading(before, load.analysis));
        Some(load)
    }

    /// Goes to the next window function, and loads the file again; without a file
    /// nothing happens.
    pub fn cycle_window(&mut self) -> (load: Option<Load>)
        ensures
            match load {
                None => !old(self)@.loaded && final(self)@ == old(self)@,
                Some(l) => {
                    &&& old(self)@.loaded
                    &&& final(self)@ == loading(old(self)@, l.analysis)
                    &&& l.generation == final(self)@.generation
                    &&& l.analysis.fft_size == old(self)@.analysis.fft_size
                    &&& l.analysis.palette == old(self)@.analysis.palette
                    &&& l.analysis.win_type.place() == (old(self)@.analysis.win_type.place() + 1)
                        % 6
                },
            },
    {
        if !self.loaded {
            return None;
        }
        let ghost before = self@;
        self.analysis = Analysis {
            win_type: next_window(self.analysis.win_type),
            ..self.analysis
        };
        let load = self.load();
        assert(self@ =~= loading(before, load.analysis));
        Some(load)
    }

    /// Goes to the next gradient, and loads the file again; without a file nothing
    /// happens.
    pub fn cycle_palette(&mut self) -> (load: Option<Load>)
        ensures
            match load {
                None => !old(self)@.loaded && final(self)@ == old(self)@,
                Some(l) => {
                    &&& old(self)@.loaded
                    &&& final(self)@ == loading(old(self)@, l.analysis)
                    &&& l.generation == final(self)@.generation
                    &&& l.analysis.fft_size == old(self)@.analysis.fft_size
                    &&& l.analysis.win_type == old(self)@.analysis.win_type
                    &&& l.analysis.palette.place() == (old(self)@.analysis.palette.place() + 1) % 8
                },
            },
    {
        if !self.loaded {
            return None;
        }
        let ghost before = self@;
        self.analysis = Analysis {
            palette: next_palette(self.analysis.palette),
            ..self.analysis
        };
        let load = self.load();
        assert(self@ =~= loading(before, load.analysis));
        Some(load)
    }

    /// Does what a key says.
    pub fn key(&mut self, press: KeyPress) -> (load: Option<Load>)
        ensures
            press.ignored || press.key == Key::Other || !old(self)@.loaded ==> load is None
                && final(self)@ == old(self)@,
            !press.ignored && press.key != Key::Other && old(self)@.loaded ==> {
                &&& load matches Some(l)
                &&& final(self)@ == loading(old(self)@, l.analysis)
                &&& l.generation == final(self)@.generation
                &&& press.key != Key::W ==> l.analysis.win_type == old(self)@.analysis.win_type
                &&& press.key != Key::F ==> l.analysis.fft_size == old(self)@.analysis.fft_size
                &&& press.key != Key::C ==> l.analysis.palette == old(self)@.analysis.palette
                &&& press.key == Key::F ==> {
                    &&& l.analysis.fft_size matches Some(n)
                    &&& n == if press.shift {
                        smaller_fft(fft_in_effect(old(self)@))
                    } else {
                        larger_fft(fft_in_effect(old(self)@))
                    }
                }
                &&& press.key == Key::C ==> l.analysis.palette.place() == (
                old(self)@.analysis.palette.place() + 1) % 8
                &&& press.key == Key::W ==> l.analysis.win_type.place() == (
                old(self)@.analysis.win_type.place() + 1) % 6
            },
    {
        if press.ignored {
            return None;
        }
        match press.key {
            Key::F => self.cycle_fft(press.shift),
            Key::W => self.cycle_window(),
            Key::C => self.cycle_palette(),
            Key::Other => None,
        }
    }

    /// Takes in a message of load `generation`; `true` when it counts.
    pub fn handle(&mut self, generation: u64, msg: LoadMsg<I>) -> (heeded: bool)
        ensures
            final(self)@ == informed(old(self)@, generation, msg@),
            heeded == (generation == old(self)@.generation),
    {
        if generation != self.generation {
            return false;
        }
        let ghost before = self@;
        let ghost said = msg@;
        match msg {
            LoadMsg::Start(name) => {
                let mut text = "Loading ".to_string();
                text.append(name.as_str());
                text.append("…");
                self.status = text;
                self.images = Vec::new();
                assert(self@.images =~= Seq::empty());
            },
            LoadMsg::Meta(m, info) => {
                self.meta = Some(m);
                self.info = info;
            },
            LoadMsg::Frame(images) => {
                self.images = images;
            },
            LoadMsg::Done(images) => {
                self.images = images;
            },
            LoadMsg::Failed(text) => {
                self.status = text;
                self.images = Vec::new();
                assert(self@.images =~= Seq::empty());
            },
        }
        assert(self@ =~= informed(before, generation, said));
        true
    }

    /// Whether a load is the last one that was started.
    pub fn is_current(&self, generation: u64) -> (b: bool)
        ensures
            b == (generation == self@.generation),
    {
        generation == self.generation
    }

    pub fn status(&self) -> (s: &String)
        ensures
            s@ == self@.status,
    {
        &self.status
    }

    pub fn info(&self) -> (i: &TrackInfo)
        ensures
            i.line1@ == self@.line1,
            i.line2@ == self@.line2,
    {
        &self.info
    }

    pub fn meta(&self) -> (m: Option<SpecMeta>)
        ensures
            m == self@.meta,
    {
        self.meta
    }

    pub fn images(&self) -> (i: &Vec<I>)
        ensures
            i@ == self@.images,
    {
        &self.images
    }
}

/// Once another load has been started, no message of the one before changes anything.
pub proof fn law_a_new_load_supersedes<I>(v: ViewerView<I>, a: Analysis, msg: MsgView<I>)
    ensures
        informed(loading(v, a), v.generation, msg) == loading(v, a),
{
}

/// The samples that are handed on at a time: a tenth of a second of all channels, and
/// at least a frame.
pub open spec fn batch_of(rate: Double, channels: int) -> int {
    let n = saturated(whole_part(rate), 0, u64::MAX as int) * channels / 10;
    if n < channels {
        channels
    } else {
        n
    }
}

/// The samples that are handed on at a time.
pub fn batch_size(rate: Double, channels: u32) -> (n: u128)
    ensures
        n == batch_of(rate, channels as int),
{
    let r: u64 = rate.to_u64();
    proof {
        assert(0 <= r * channels <= 0xFFFF_FFFF_FFFF_FFFF * 0xFFFF_FFFF) by (nonlinear_arith)
            requires
                0 <= r <= 0xFFFF_FFFF_FFFF_FFFF,
                0 <= channels <= 0xFFFF_FFFF,
        ;
    }
    let n: u128 = r as u128 * channels as u128 / 10;
    if n < channels as u128 {
        channels as u128
    } else {
        n
    }
}

/// Whether the columns so far are to be shown: when there are new ones and a tenth of a
/// second has passed, or in any case if `force`, but never none at all.
pub fn publishes(cols: i32, last_cols: i32, micros: u64, force: bool) -> (b: bool)
    ensures
        b == (cols > 0 && (force || (cols != last_cols && micros >= 100_000))),
{
    cols > 0 && (force || (cols != last_cols && micros >= 100_000))
}

} // verus!
