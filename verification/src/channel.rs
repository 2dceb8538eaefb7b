//! The block schedule of one channel.
//!
//! A channel slides a frame of `dft_size` samples over its input in hops of
//! `step_size`. Each full hop is a *block*: the frame is handed on to be
//! windowed and transformed. Every `block_steps` blocks make one image column,
//! until the image holds `x_size` columns. Which samples a block holds, which
//! window it needs and which column it belongs to depend on counts alone, so the
//! whole schedule is integer work; the spectrum of a block is computed elsewhere.
use vstd::prelude::*;

verus! {

/// The time geometry shared by all the channels of one spectrogram.
#[derive(Clone, Copy, Debug, PartialEq, Eq, Structural)]
pub struct Geometry {
    /// Length of the transform, and of a frame.
    pub dft_size: i32,
    /// Hop between two frames, in samples.
    pub step_size: i32,
    /// Blocks summed up in one column.
    pub block_steps: i32,
    /// Frequency rows of a column.
    pub rows: i32,
    /// Columns the image has room for.
    pub x_size: i32,
    /// Leading samples to leave out.
    pub skip: u64,
}

/// The longest transform whose counters stay in range.
pub const MAX_DFT_SIZE: i32 = 0x7FFF_FFFE;

impl Geometry {
    /// A hop is at least one sample and at most a frame, and a column at least
    /// one block.
    pub open spec fn well_formed(self) -> bool {
        &&& 2 <= self.dft_size <= MAX_DFT_SIZE
        &&& 1 <= self.step_size <= self.dft_size
        &&& 1 <= self.block_steps
        &&& self.rows == self.dft_size / 2 + 1
    }

    /// Half of the overlap of two frames: the zeros that lead the first frame and
    /// that trail the last one are counted from it.
    pub open spec fn margin(self) -> int {
        (self.dft_size - self.step_size) / 2
    }

    /// Position of the first sample inside the first frame.
    pub open spec fn lead(self) -> int {
        self.dft_size - self.step_size - self.margin()
    }
}

/// What a block hands on.
#[derive(Debug)]
pub struct Block {
    /// The `dft_size` samples under the window.
    pub frame: Vec<i32>,
    /// `Some(end)` when the window has to be rebuilt for `end` before this block.
    pub window: Option<i32>,
    /// Whether this block completes a column that the image has room for.
    pub column: bool,
}

/// The model of a block.
#[verifier::ext_equal]
pub struct BlockView {
    pub frame: Seq<i32>,
    pub window: Option<int>,
    pub column: bool,
}

impl View for Block {
    type V = BlockView;

    open spec fn view(&self) -> BlockView {
        BlockView {
            frame: self.frame@,
            window: match self.window {
                Some(end) => Some(end as int),
                None => None,
            },
            column: self.column,
        }
    }
}

/// The models of a list of blocks.
pub open spec fn block_views(blocks: Seq<Block>) -> Seq<BlockView> {
    blocks.map_values(|b: Block| b@)
}

/// The model of a channel's state.
#[verifier::ext_equal]
pub struct Schedule {
    pub geom: Geometry,
    /// Samples still to leave out.
    pub skip: int,
    /// Samples of the current hop that have arrived; negative while the first
    /// frame is still filling up.
    pub read: int,
    /// Samples the window reaches beyond the input at its start (or, negative,
    /// at its end).
    pub end: int,
    /// Lower bound of `end` at the next block.
    pub end_min: int,
    /// The `end` the window was last built for.
    pub last_end: int,
    /// Blocks in the column under way.
    pub block_num: int,
    /// Columns completed.
    pub cols: int,
    /// Whether a column was refused for want of room.
    pub truncated: bool,
    pub buf: Seq<i32>,
}

/// The schedule before any sample has arrived.
pub open spec fn fresh(geom: Geometry) -> Schedule {
    Schedule {
        geom,
        skip: geom.skip as int,
        read: -geom.margin(),
        end: geom.dft_size as int,
        end_min: 0,
        last_end: 0,
        block_num: 0,
        cols: 0,
        truncated: false,
        buf: Seq::new(geom.dft_size as nat, |i: int| 0i32),
    }
}

/// The frame moved on by one hop; the last `step` places keep what they held.
pub open spec fn hop(buf: Seq<i32>, step: int) -> Seq<i32> {
    Seq::new(buf.len(), |i: int| if i + step < buf.len() { buf[i + step] } else { buf[i] })
}

/// A column is completed, or refused when the image is full.
pub open spec fn close_column(s: Schedule) -> Schedule {
    if s.cols == s.geom.x_size {
        Schedule { truncated: true, ..s }
    } else {
        Schedule { cols: s.cols + 1, block_num: 0, ..s }
    }
}

/// The `end` that a block uses.
pub open spec fn block_end(s: Schedule) -> int {
    if s.end < s.end_min {
        s.end_min
    } else {
        s.end
    }
}

/// The block that a full hop makes.
pub open spec fn block_of(s: Schedule) -> BlockView {
    BlockView {
        frame: s.buf,
        window: if block_end(s) != s.last_end {
            Some(block_end(s))
        } else {
            None
        },
        column: s.block_num + 1 == s.geom.block_steps && s.cols != s.geom.x_size,
    }
}

/// The schedule once a full hop has made its block, before the frame moves on.
pub open spec fn after_block(s: Schedule) -> Schedule {
    let counted = Schedule {
        end: block_end(s),
        last_end: block_end(s),
        block_num: s.block_num + 1,
        ..s
    };
    if counted.block_num == s.geom.block_steps {
        close_column(counted)
    } else {
        counted
    }
}

/// The frame moves on, unless the channel has stopped.
pub open spec fn advance(s: Schedule) -> Schedule {
    if s.truncated {
        s
    } else {
        Schedule { read: 0, buf: hop(s.buf, s.geom.step_size as int), ..s }
    }
}

/// One sample arrives.
pub open spec fn feed(s: Schedule, x: i32) -> (Schedule, Seq<BlockView>) {
    if s.truncated {
        (s, Seq::empty())
    } else if s.skip > 0 {
        (Schedule { skip: s.skip - 1, ..s }, Seq::empty())
    } else {
        let t = Schedule {
            buf: s.buf.update(s.geom.dft_size - s.geom.step_size + s.read, x),
            read: s.read + 1,
            end: s.end - 1,
            ..s
        };
        if t.read < s.geom.step_size {
            (t, Seq::empty())
        } else {
            (advance(after_block(t)), seq![block_of(t)])
        }
    }
}

/// Samples arrive in order.
pub open spec fn flowed(s: Schedule, xs: Seq<i32>) -> (Schedule, Seq<BlockView>)
    decreases xs.len(),
{
    if xs.len() == 0 {
        (s, Seq::empty())
    } else {
        let (t, blocks) = flowed(s, xs.drop_last());
        let (u, more) = feed(t, xs.last());
        (u, blocks + more)
    }
}

/// The zeros that end the input: half of the overlap, rounded up to a whole hop
/// when at least half of a hop is left over.
pub open spec fn padding(s: Schedule) -> nat {
    let margin = s.geom.margin();
    let step = s.geom.step_size as int;
    let left_over = (margin + s.read) % step;
    if left_over >= step / 2 {
        (margin + step - left_over) as nat
    } else {
        margin as nat
    }
}

/// `n` samples of silence.
pub open spec fn silence(n: nat) -> Seq<i32> {
    Seq::new(n, |i: int| 0i32)
}

/// What ending the input leaves: the schedule, the blocks that the trailing
/// zeros complete, and the number of blocks in a last, partial column.
#[verifier::ext_equal]
pub struct Drained {
    pub state: Schedule,
    pub blocks: Seq<BlockView>,
    pub tail: Option<int>,
}

/// The input ends.
pub open spec fn drained(s: Schedule) -> Drained {
    if s.truncated {
        Drained { state: s, blocks: Seq::empty(), tail: None }
    } else {
        let ending = Schedule { end: 0, end_min: -s.geom.dft_size, ..s };
        let (t, blocks) = flowed(ending, silence(padding(s)));
        if !t.truncated && t.block_num != 0 {
            Drained {
                state: close_column(t),
                blocks,
                tail: if t.cols != t.geom.x_size {
                    Some(t.block_num)
                } else {
                    None
                },
            }
        } else {
            Drained { state: t, blocks, tail: None }
        }
    }
}

impl Schedule {
    /// What holds of a channel's state at all times.
    pub open spec fn well_formed(self) -> bool {
        let g = self.geom;
        &&& g.well_formed()
        &&& self.buf.len() == g.dft_size
        &&& 0 <= self.skip <= g.skip
        &&& -g.margin() <= self.read <= g.step_size
        &&& !self.truncated ==> self.read < g.step_size
        &&& -g.dft_size <= self.end_min <= 0
        &&& self.end_min <= self.end + self.read
        &&& self.end <= g.dft_size
        &&& -g.dft_size <= self.last_end <= g.dft_size
        &&& 0 <= self.block_num <= g.block_steps
        &&& !self.truncated ==> self.block_num < g.block_steps
        &&& 0 <= self.cols <= i32::MAX
        &&& g.x_size >= 0 ==> self.cols <= g.x_size
    }

    /// Whether `n` more samples cannot run the column count out of range: always
    /// so when the image has a width.
    pub open spec fn has_room(self, n: int) -> bool {
        self.geom.x_size >= 0 || self.cols + n <= i32::MAX
    }
}

/// One channel, fed sample by sample.
#[derive(Debug)]
pub struct Channel {
    geom: Geometry,
    skip: u64,
    read: i32,
    end: i64,
    end_min: i32,
    last_end: i32,
    block_num: i32,
    cols: i32,
    truncated: bool,
    buf: Vec<i32>,
}

impl View for Channel {
    type V = Schedule;

    closed spec fn view(&self) -> Schedule {
        Schedule {
            geom: self.geom,
            skip: self.skip as int,
            read: self.read as int,
            end: self.end as int,
            end_min: self.end_min as int,
            last_end: self.last_end as int,
            block_num: self.block_num as int,
            cols: self.cols as int,
            truncated: self.truncated,
            buf: self.buf@,
        }
    }
}

impl Channel {
    /// A channel that has seen no sample.
    pub fn new(geom: &Geometry) -> (c: Channel)
        requires
            geom.well_formed(),
        ensures
            c@ == fresh(*geom),
            c@.well_formed(),
    {
        let mut buf: Vec<i32> = Vec::new();
        let mut i: i32 = 0;
        while i < geom.dft_size
            invariant
                0 <= i <= geom.dft_size,
                buf@ == Seq::new(i as nat, |j: int| 0i32),
            decreases geom.dft_size - i,
        {
            buf.push(0);
            i = i + 1;
            assert(buf@ =~= Seq::new(i as nat, |j: int| 0i32));
        }
        let c = Channel {
            geom: *geom,
            skip: geom.skip,
            read: -((geom.dft_size - geom.step_size) / 2),
            end: geom.dft_size as i64,
            end_min: 0,
            last_end: 0,
            block_num: 0,
            cols: 0,
            truncated: false,
            buf,
        };
        assert(c@ =~= fresh(*geom));
        c
    }

    /// Completes a column; `false` when the image is full.
    fn do_column(&mut self) -> (room: bool)
        requires
            old(self).cols != old(self).geom.x_size ==> old(self).cols < i32::MAX,
        ensures
            final(self)@ == close_column(old(self)@),
            room == (old(self)@.cols != old(self)@.geom.x_size),
    {
        if self.cols == self.geom.x_size {
            self.truncated = true;
            false
        } else {
            self.cols = self.cols + 1;
            self.block_num = 0;
            true
        }
    }

    /// Turns a full hop into its block.
    fn process_block(&mut self) -> (block: Block)
        requires
            old(self).block_num < i32::MAX,
            old(self).cols != old(self).geom.x_size ==> old(self).cols < i32::MAX,
            old(self).end <= i32::MAX,
        ensures
            final(self)@ == after_block(old(self)@),
            block@ == block_of(old(self)@),
    {
        let frame = self.buf.clone();
        assert(frame@ =~= self.buf@);
        if self.end < self.end_min as i64 {
            self.end = self.end_min as i64;
        }
        let mut window: Option<i32> = None;
        if self.end != self.last_end as i64 {
            self.last_end = self.end as i32;
            window = Some(self.last_end);
        }
        self.block_num = self.block_num + 1;
        let column = if self.block_num == self.geom.block_steps {
            self.do_column()
        } else {
            false
        };
        assert(self@ =~= after_block(old(self)@));
        Block { frame, window, column }
    }

    /// Moves the frame on by one hop.
    fn shift(&mut self)
        requires
            old(self)@.geom.well_formed(),
            old(self)@.buf.len() == old(self)@.geom.dft_size,
        ensures
            final(self)@ == (Schedule {
                read: 0,
                buf: hop(old(self)@.buf, old(self)@.geom.step_size as int),
                ..old(self)@
            }),
    {
        let step = self.geom.step_size as usize;
        let len = self.buf.len();
        let mut i: usize = 0;
        while i < len - step
            invariant
                self@ == (Schedule { buf: self@.buf, ..old(self)@ }),
                len == self.buf.len() == old(self)@.buf.len(),
                1 <= step <= len,
                i <= len - step,
                forall|j: int|
                    0 <= j < len ==> self@.buf[j] == if j < i {
                        old(self)@.buf[j + step]
                    } else {
                        old(self)@.buf[j]
                    },
            decreases len - i,
        {
            let x = self.buf[i + step];
            self.buf.set(i, x);
            i = i + 1;
        }
        self.read = 0;
        assert(self@.buf =~= hop(old(self)@.buf, old(self)@.geom.step_size as int));
    }

    /// Takes one sample.
    fn feed(&mut self, x: i32) -> (block: Option<Block>)
        requires
            old(self)@.well_formed(),
            old(self)@.has_room(1),
        ensures
            final(self)@ == feed(old(self)@, x).0,
            feed(old(self)@, x).1 == match block {
                Some(b) => seq![b@],
                None => Seq::<BlockView>::empty(),
            },
    {
        if self.truncated {
            return None;
        }
        if self.skip > 0 {
            self.skip = self.skip - 1;
            return None;
        }
        let at = (self.geom.dft_size - self.geom.step_size + self.read) as usize;
        self.buf.set(at, x);
        self.read = self.read + 1;
        self.end = self.end - 1;
        if self.read != self.geom.step_size {
            return None;
        }
        let block = self.process_block();
        if !self.truncated {
            self.shift();
        }
        Some(block)
    }

    /// Takes samples in order, and returns the blocks they complete.
    pub fn flow(&mut self, samples: &[i32]) -> (blocks: Vec<Block>)
        requires
            old(self)@.well_formed(),
            old(self)@.has_room(samples@.len() as int),
        ensures
            final(self)@.well_formed(),
            (final(self)@, block_views(blocks@)) == flowed(old(self)@, samples@),
            final(self)@.geom == old(self)@.geom,
            old(self)@.cols <= final(self)@.cols <= old(self)@.cols + samples@.len(),
    {
        let mut blocks: Vec<Block> = Vec::new();
        let mut i: usize = 0;
        assert(samples@.take(0) =~= Seq::empty());
        assert(block_views(blocks@) =~= Seq::empty());
        while i < samples.len()
            invariant
                i <= samples@.len(),
                self@.well_formed(),
                old(self)@.has_room(samples@.len() as int),
                self@.geom == old(self)@.geom,
                old(self)@.cols <= self@.cols <= old(self)@.cols + i,
                (self@, block_views(blocks@)) == flowed(old(self)@, samples@.take(i as int)),
            decreases samples@.len() - i,
        {
            let ghost before = self@;
            proof {
                lemma_feed_well_formed(self@, samples@[i as int]);
                assert(samples@.take(i + 1).drop_last() =~= samples@.take(i as int));
                assert(samples@.take(i + 1).last() == samples@[i as int]);
            }
            let ghost had = block_views(blocks@);
            match self.feed(samples[i]) {
                Some(b) => {
                    let ghost one = b@;
                    blocks.push(b);
                    assert(block_views(blocks@) =~= had + seq![one]);
                },
                None => {
                    assert(had + Seq::<BlockView>::empty() =~= had);
                },
            }
            i = i + 1;
        }
        assert(samples@.take(i as int) =~= samples@);
        blocks
    }

    /// Ends the input: trailing zeros fill up the last hop, and what is left of a
    /// column becomes a last one. Returns the blocks completed and, for a partial
    /// last column, its number of blocks.
    pub fn drain(&mut self) -> (rest: (Vec<Block>, Option<i32>))
        requires
            old(self)@.well_formed(),
            old(self)@.has_room(padding(old(self)@) as int + 1),
        ensures
            final(self)@.well_formed(),
            final(self)@.geom == old(self)@.geom,
            final(self)@ == drained(old(self)@).state,
            old(self)@.cols <= final(self)@.cols,
            block_views(rest.0@) == drained(old(self)@).blocks,
            drained(old(self)@).tail == match rest.1 {
                Some(n) => Some(n as int),
                None => None,
            },
    {
        if self.truncated {
            let none: Vec<Block> = Vec::new();
            assert(block_views(none@) =~= Seq::empty());
            return (none, None);
        }
        let step = self.geom.step_size;
        let margin = (self.geom.dft_size - step) / 2;
        let left_over = (margin + self.read) % step;
        let pad = if left_over >= step / 2 {
            margin + (step - left_over)
        } else {
            margin
        };
        assert(pad == padding(self@));
        self.end = 0;
        self.end_min = -self.geom.dft_size;
        let mut zeros: Vec<i32> = Vec::new();
        while zeros.len() < pad as usize
            invariant
                0 <= pad,
                zeros@.len() <= pad,
                zeros@ =~= silence(zeros@.len()),
            decreases pad - zeros@.len(),
        {
            zeros.push(0);
        }
        let blocks = self.flow(zeros.as_slice());
        if !self.truncated && self.block_num != 0 {
            let count = self.block_num;
            let room = self.do_column();
            (blocks, if room { Some(count) } else { None })
        } else {
            (blocks, None)
        }
    }

    /// Columns completed so far.
    pub fn cols(&self) -> (n: i32)
        ensures
            n == self@.cols,
    {
        self.cols
    }

    /// Whether the image was full when a further column was due.
    pub fn truncated(&self) -> (b: bool)
        ensures
            b == self@.truncated,
    {
        self.truncated
    }

    /// Samples that are still to be left out.
    pub fn skip(&self) -> (n: u64)
        ensures
            n == self@.skip,
    {
        self.skip
    }
}

/// A sample keeps the state well-formed, and adds at most one column.
pub proof fn lemma_feed_well_formed(s: Schedule, x: i32)
    requires
        s.well_formed(),
        s.has_room(1),
    ensures
        feed(s, x).0.well_formed(),
        feed(s, x).0.geom == s.geom,
        s.cols <= feed(s, x).0.cols <= s.cols + 1,
{
}

} // verus!
