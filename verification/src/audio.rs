//! Decoded audio, and the conversion of every sample format to full-scale
//! 32-bit samples.
use crate::double::{
    lemma_scaled_increases, scaled, scaled_single, widen, Double, HIDDEN, INFINITE, SIGN,
};
use vstd::arithmetic::div_mod::{
    lemma_div_denominator, lemma_div_multiples_vanish, lemma_fundamental_div_mod_converse,
    lemma_mod_multiples_vanish,
};
use vstd::arithmetic::power2::{
    lemma2_to64, lemma2_to64_rest, lemma_pow2_adds, lemma_pow2_pos, lemma_pow2_strictly_increases,
    lemma_pow2_unfold, pow2,
};
use vstd::prelude::*;
use vstd::string::*;

verus! {

/// Decoded audio: interleaved 32-bit samples.
#[derive(Debug)]
pub struct Audio {
    /// Sample rate in Hz.
    pub rate: Double,
    pub channels: u32,
    /// Frame `f` of channel `c` is at `samples[f * channels + c]`.
    pub samples: Vec<i32>,
}

impl Audio {
    /// Frames per channel.
    pub fn frames(&self) -> (n: usize)
        ensures
            n == if self.channels == 0 {
                0
            } else {
                self.samples@.len() as int / self.channels as int
            },
    {
        if self.channels == 0 {
            0
        } else {
            self.samples.len() / self.channels as usize
        }
    }
}

/// The 32-bit sample that `x` leaves when its high bits are cut off.
pub open spec fn wrap_sample(x: int) -> int {
    let r = x % 0x1_0000_0000;
    if r >= 0x8000_0000 {
        r - 0x1_0000_0000
    } else {
        r
    }
}

/// The weight of the lowest bit of a `bits`-bit sample in a 32-bit one.
pub open spec fn sample_unit(bits: u32) -> nat {
    pow2(((32 - bits) % 32) as nat)
}

fn unit(bits: u32) -> (f: u64)
    requires
        bits <= 32,
    ensures
        f == sample_unit(bits),
        1 <= f <= 0x8000_0000,
{
    let shift: u32 = (32 - bits) % 32;
    let mut f: u64 = 1;
    let mut k: u32 = 0;
    proof {
        lemma2_to64();
    }
    while k < shift
        invariant
            k <= shift < 32,
            f == pow2(k as nat),
            1 <= f <= 0x8000_0000,
            k < 31 ==> f <= 0x4000_0000,
        decreases shift - k,
    {
        proof {
            lemma_pow2_unfold((k + 1) as nat);
            lemma2_to64();
            if k + 1 < 31 {
                if k + 1 < 30 {
                    lemma_pow2_strictly_increases((k + 1) as nat, 30);
                }
            }
        }
        f = f * 2;
        k = k + 1;
    }
    f
}

fn wrap(low: u64) -> (s: i32)
    requires
        low < 0x1_0000_0000,
    ensures
        s == wrap_sample(low as int),
{
    if low >= 0x8000_0000 {
        (low as i64 - 0x1_0000_0000) as i32
    } else {
        low as i32
    }
}

/// A signed `bits`-bit sample at full scale: the bits move to the top.
pub fn signed_to_sample(bits: u32, d: i32) -> (s: i32)
    requires
        bits <= 32,
    ensures
        s == wrap_sample(d * sample_unit(bits)),
{
    let f = unit(bits);
    proof {
        assert(-0x4000_0000_0000_0000 <= d * f < 0x4000_0000_0000_0000) by (nonlinear_arith)
            requires
                -0x8000_0000 <= d < 0x8000_0000,
                1 <= f <= 0x8000_0000,
        ;
    }
    let x: i64 = d as i64 * f as i64;
    let lifted: u64 = (x + 0x4000_0000_0000_0000) as u64;
    proof {
        lemma_mod_multiples_vanish(0x4000_0000, x as int, 0x1_0000_0000);
    }
    wrap(lifted % 0x1_0000_0000)
}

/// An unsigned `bits`-bit sample at full scale: as a signed one, with the middle
/// of the range moved to zero.
pub fn unsigned_to_sample(bits: u32, d: u32) -> (s: i32)
    requires
        bits <= 32,
    ensures
        s == wrap_sample(d * sample_unit(bits) - 0x8000_0000),
{
    let f = unit(bits);
    proof {
        assert(0 <= d * f <= 0x8000_0000_0000_0000) by (nonlinear_arith)
            requires
                0 <= d <= 0x1_0000_0000,
                1 <= f <= 0x8000_0000,
        ;
    }
    let x: u64 = d as u64 * f;
    proof {
        lemma_mod_multiples_vanish(1, x - 0x8000_0000, 0x1_0000_0000);
    }
    wrap((x + 0x8000_0000) % 0x1_0000_0000)
}

/// 2^1043: with the value of a double counted in units of 2^-1074, the value of
/// one sample step, 2^-31.
pub open spec fn sample_step() -> nat {
    pow2(1043)
}

/// The magnitude bits of the largest double below half a sample step.
const UNDER_HALF_STEP: u64 = 0x3DEF_FFFF_FFFF_FFFF;

/// The value of the largest double below half a sample step.
pub open spec fn under_half_step() -> int {
    pow2(1042) - pow2(989)
}

/// An absolute value in sample steps, rounded, a half up. Half a step is added in
/// double precision: of the numbers below half a step the largest gives a sum
/// that is no double and becomes a whole step.
pub open spec fn rounded_steps(value: nat) -> int {
    if value == under_half_step() {
        1
    } else {
        (2 * value + sample_step()) as int / (2 * sample_step()) as int
    }
}

/// The sample of a number whose full scale is 1, given by its sign and absolute
/// value: rounded, and clipped to the range of a sample. A NaN is silence.
pub open spec fn clipped(nan: bool, infinite: bool, negative: bool, value: nat) -> int {
    if nan {
        0
    } else if negative {
        if infinite || 2 * value >= 0x1_0000_0001 * sample_step() {
            i32::MIN as int
        } else {
            -rounded_steps(value)
        }
    } else if infinite || 2 * value >= 0xFFFF_FFFF * sample_step() {
        i32::MAX as int
    } else {
        rounded_steps(value)
    }
}

/// The sample of a double.
pub open spec fn sample_of(d: Double) -> int {
    clipped(d.nan(), !d.finite(), d.negative(), scaled(d.magnitude()))
}

/// The sample of a single with the given bits.
pub open spec fn sample_of_single(bits: u32) -> int {
    let mag = bits % 0x8000_0000;
    clipped(
        mag > 0x7F80_0000,
        mag >= 0x7F80_0000,
        bits >= 0x8000_0000,
        scaled_single(mag) * pow2(925),
    )
}

/// Rounding a normal number to sample steps by its mantissa.
proof fn lemma_steps_of_mantissa(mag: u64, m: nat, s: nat, limit: nat)
    requires
        HIDDEN <= mag < INFINITE,
        m == HIDDEN + mag % HIDDEN,
        s + mag / HIDDEN == 1044,
    ensures
        (2 * scaled(mag) + sample_step()) / (2 * sample_step()) == (2 * m + pow2(s)) / (2 * pow2(s)),
        2 * scaled(mag) >= limit * sample_step() <==> 2 * m >= limit * pow2(s),
{
    let e = (mag / HIDDEN - 1) as nat;
    let p = pow2(e) as int;
    let t = pow2(s) as int;
    lemma_pow2_pos(e);
    lemma_pow2_pos(s);
    lemma_pow2_adds(s, e);
    assert(sample_step() == t * p);
    assert(2 * (m * p) + t * p == p * (2 * m + t)) by (nonlinear_arith);
    assert(2 * (t * p) == p * (2 * t)) by (nonlinear_arith);
    lemma_div_denominator(p * (2 * m + t), p, 2 * t);
    lemma_div_multiples_vanish(2 * m + t, p);
    assert(2 * (m * p) >= limit * (t * p) <==> 2 * m >= limit * t) by (nonlinear_arith)
        requires
            p > 0,
    ;
}

/// A double of full scale 1 as a sample.
pub fn float_to_sample(d: Double) -> (s: i32)
    ensures
        s == sample_of(d),
{
    let mag: u64 = d.bits % SIGN;
    if mag > INFINITE {
        return 0;
    }
    let negative = d.bits >= SIGN;
    let ghost step = sample_step();
    proof {
        lemma_pow2_pos(1042);
        lemma_pow2_unfold(1043);
        lemma2_to64();
        lemma2_to64_rest();
        assert(UNDER_HALF_STEP / HIDDEN == 990 && UNDER_HALF_STEP % HIDDEN == HIDDEN - 1);
        lemma_pow2_adds(53, 989);
        assert((HIDDEN + (HIDDEN - 1)) * pow2(989) == 0x20_0000_0000_0000 * pow2(989) - pow2(989))
            by (nonlinear_arith);
        if mag < UNDER_HALF_STEP {
            lemma_scaled_increases(mag, UNDER_HALF_STEP);
        } else if mag > UNDER_HALF_STEP {
            lemma_scaled_increases(UNDER_HALF_STEP, mag);
        }
    }
    if mag <= UNDER_HALF_STEP {
        proof {
            // half a step is the double with the next magnitude
            let half: u64 = 0x3DF0_0000_0000_0000;
            assert(half / HIDDEN == 991 && half % HIDDEN == 0);
            lemma_pow2_adds(52, 990);
            assert(scaled(half) == pow2(1042));
            lemma_scaled_increases(mag, half);
            let sum = (2 * scaled(mag) + step) as int;
            lemma_fundamental_div_mod_converse(sum, 2 * step as int, 0, sum);
            assert(0x1_0000_0001 * step > 2 * scaled(mag));
        }
        let n: i32 = if mag == UNDER_HALF_STEP {
            1
        } else {
            0
        };
        return if negative {
            -n
        } else {
            n
        };
    }
    let exponent: u64 = mag / HIDDEN;
    if exponent > 1023 {
        proof {
            // the number is at least 2
            let two: u64 = 0x4000_0000_0000_0000;
            assert(two / HIDDEN == 1024 && two % HIDDEN == 0);
            lemma_pow2_adds(52, 1023);
            lemma_pow2_adds(32, 1043);
            assert(scaled(two) == pow2(1075));
            if two < mag {
                lemma_scaled_increases(two, mag);
            }
            assert(2 * scaled(mag) >= 0x1_0000_0001 * step) by (nonlinear_arith)
                requires
                    scaled(mag) >= 0x1_0000_0000 * step,
                    step > 0,
            ;
        }
        return if negative {
            i32::MIN
        } else {
            i32::MAX
        };
    }
    let m: u64 = HIDDEN + mag % HIDDEN;
    let shift: u64 = 1044 - exponent;
    let half: u64 = power_of_two(shift);
    proof {
        lemma_steps_of_mantissa(mag, m as nat, shift as nat, 0x1_0000_0001);
        lemma_steps_of_mantissa(mag, m as nat, shift as nat, 0xFFFF_FFFF);
    }
    if exponent >= 1022 {
        // from half of the range on, clipping is possible
        let limit: u64 = if negative {
            0x1_0000_0001
        } else {
            0xFFFF_FFFF
        };
        proof {
            lemma2_to64();
        }
        if 2 * m >= limit * half {
            return if negative {
                i32::MIN
            } else {
                i32::MAX
            };
        }
    } else {
        proof {
            // below, the range is out of reach
            lemma2_to64();
            if shift > 23 {
                lemma_pow2_strictly_increases(23, shift as nat);
            }
            assert(2 * m < 0xFFFF_FFFF * half) by (nonlinear_arith)
                requires
                    m < 0x0020_0000_0000_0000,
                    half >= 0x80_0000,
            ;
        }
    }
    proof {
        assert(2 * m + half < 0x1_0000_0001 * half + half) by (nonlinear_arith)
            requires
                2 * m < 0x1_0000_0001 * half,
        ;
        assert((2 * m + half) as int / (2 * half) as int <= 0x8000_0000) by (nonlinear_arith)
            requires
                2 * m + half < 0x1_0000_0002 * half,
                half > 0,
        ;
        if !negative {
            assert((2 * m + half) as int / (2 * half) as int <= 0x7FFF_FFFF) by (nonlinear_arith)
                requires
                    2 * m < 0xFFFF_FFFF * half,
                    half > 0,
            ;
        }
    }
    let n: u64 = (2 * m + half) / (2 * half);
    if negative {
        (-(n as i64)) as i32
    } else {
        n as i32
    }
}

fn power_of_two(k: u64) -> (f: u64)
    requires
        k <= 53,
    ensures
        f == pow2(k as nat),
        1 <= f <= 0x20_0000_0000_0000,
{
    let mut f: u64 = 1;
    let mut i: u64 = 0;
    proof {
        lemma2_to64();
    }
    while i < k
        invariant
            i <= k <= 53,
            f == pow2(i as nat),
            1 <= f <= 0x20_0000_0000_0000,
        decreases k - i,
    {
        proof {
            lemma_pow2_unfold((i + 1) as nat);
            lemma2_to64_rest();
            if i + 1 < 53 {
                lemma_pow2_strictly_increases((i + 1) as nat, 53);
            }
        }
        f = f * 2;
        i = i + 1;
    }
    f
}

/// One decoded buffer: a plane of samples per channel, in the format of the
/// stream. 24-bit samples are held in 32 bits, floating-point samples by their
/// bits.
#[derive(Debug)]
pub enum Planes {
    U8(Vec<Vec<u8>>),
    U16(Vec<Vec<u16>>),
    U24(Vec<Vec<u32>>),
    U32(Vec<Vec<u32>>),
    S8(Vec<Vec<i8>>),
    S16(Vec<Vec<i16>>),
    S24(Vec<Vec<i32>>),
    S32(Vec<Vec<i32>>),
    F32(Vec<Vec<u32>>),
    F64(Vec<Vec<u64>>),
}

impl Planes {
    /// The number of planes.
    pub open spec fn chans(self) -> nat {
        match self {
            Planes::U8(p) => p@.len(),
            Planes::U16(p) => p@.len(),
            Planes::U24(p) => p@.len(),
            Planes::U32(p) => p@.len(),
            Planes::S8(p) => p@.len(),
            Planes::S16(p) => p@.len(),
            Planes::S24(p) => p@.len(),
            Planes::S32(p) => p@.len(),
            Planes::F32(p) => p@.len(),
            Planes::F64(p) => p@.len(),
        }
    }

    /// The length of plane `c`.
    pub open spec fn plane_len(self, c: int) -> nat {
        match self {
            Planes::U8(p) => p@[c]@.len(),
            Planes::U16(p) => p@[c]@.len(),
            Planes::U24(p) => p@[c]@.len(),
            Planes::U32(p) => p@[c]@.len(),
            Planes::S8(p) => p@[c]@.len(),
            Planes::S16(p) => p@[c]@.len(),
            Planes::S24(p) => p@[c]@.len(),
            Planes::S32(p) => p@[c]@.len(),
            Planes::F32(p) => p@[c]@.len(),
            Planes::F64(p) => p@[c]@.len(),
        }
    }

    /// Whether every plane has at least `frames` samples.
    pub open spec fn holds(self, frames: nat) -> bool {
        forall|c: int| 0 <= c < self.chans() ==> frames <= #[trigger] self.plane_len(c)
    }

    /// Sample `f` of plane `c` at full scale.
    pub open spec fn at(self, c: int, f: int) -> int {
        match self {
            Planes::U8(p) => wrap_sample(p@[c]@[f] * sample_unit(8) - 0x8000_0000),
            Planes::U16(p) => wrap_sample(p@[c]@[f] * sample_unit(16) - 0x8000_0000),
            Planes::U24(p) => wrap_sample(p@[c]@[f] * sample_unit(24) - 0x8000_0000),
            Planes::U32(p) => wrap_sample(p@[c]@[f] * sample_unit(32) - 0x8000_0000),
            Planes::S8(p) => wrap_sample(p@[c]@[f] * sample_unit(8)),
            Planes::S16(p) => wrap_sample(p@[c]@[f] * sample_unit(16)),
            Planes::S24(p) => wrap_sample(p@[c]@[f] * sample_unit(24)),
            Planes::S32(p) => wrap_sample(p@[c]@[f] * sample_unit(32)),
            Planes::F32(p) => sample_of_single(p@[c]@[f]),
            Planes::F64(p) => sample_of(Double { bits: p@[c]@[f] }),
        }
    }

    /// The first `frames` samples of all planes, frame by frame.
    pub open spec fn interleaved(self, frames: nat) -> Seq<i32> {
        let chans = self.chans() as int;
        Seq::new((frames * chans) as nat, |k: int| self.at(k % chans, k / chans) as i32)
    }

    fn count(&self) -> (n: usize)
        ensures
            n == self.chans(),
    {
        match self {
            Planes::U8(p) => p.len(),
            Planes::U16(p) => p.len(),
            Planes::U24(p) => p.len(),
            Planes::U32(p) => p.len(),
            Planes::S8(p) => p.len(),
            Planes::S16(p) => p.len(),
            Planes::S24(p) => p.len(),
            Planes::S32(p) => p.len(),
            Planes::F32(p) => p.len(),
            Planes::F64(p) => p.len(),
        }
    }

    fn sample(&self, c: usize, f: usize) -> (s: i32)
        requires
            c < self.chans(),
            f < self.plane_len(c as int),
        ensures
            s == self.at(c as int, f as int),
    {
        match self {
            Planes::U8(p) => unsigned_to_sample(8, p[c][f] as u32),
            Planes::U16(p) => unsigned_to_sample(16, p[c][f] as u32),
            Planes::U24(p) => unsigned_to_sample(24, p[c][f]),
            Planes::U32(p) => unsigned_to_sample(32, p[c][f]),
            Planes::S8(p) => signed_to_sample(8, p[c][f] as i32),
            Planes::S16(p) => signed_to_sample(16, p[c][f] as i32),
            Planes::S24(p) => signed_to_sample(24, p[c][f]),
            Planes::S32(p) => signed_to_sample(32, p[c][f]),
            Planes::F32(p) => float_to_sample(widen(p[c][f])),
            Planes::F64(p) => float_to_sample(Double { bits: p[c][f] }),
        }
    }
}

/// Appends the first `frames` samples of every plane, interleaved and at full
/// scale.
pub fn append_samples(decoded: &Planes, frames: usize, out: &mut Vec<i32>)
    requires
        decoded.holds(frames as nat),
    ensures
        final(out)@ == old(out)@ + decoded.interleaved(frames as nat),
{
    let chans = decoded.count();
    let mut f: usize = 0;
    while f < frames
        invariant
            f <= frames,
            chans == decoded.chans(),
            decoded.holds(frames as nat),
            out@ =~= old(out)@ + decoded.interleaved(f as nat),
        decreases frames - f,
    {
        let mut c: usize = 0;
        assert(decoded.interleaved(f as nat) =~= decoded.interleaved((f + 1) as nat).take(
            f * chans as int,
        )) by {
            assert((f + 1) * chans == f * chans + chans) by (nonlinear_arith);
            assert(f * chans >= 0) by (nonlinear_arith);
        }
        while c < chans
            invariant
                c <= chans,
                f < frames,
                chans == decoded.chans(),
                decoded.holds(frames as nat),
                out@ =~= old(out)@ + decoded.interleaved((f + 1) as nat).take(f * chans + c),
            decreases chans - c,
        {
            let s = decoded.sample(c, f);
            proof {
                let k = f * chans + c;
                assert((f + 1) * chans == f * chans + chans) by (nonlinear_arith);
                assert(f * chans >= 0) by (nonlinear_arith);
                lemma_fundamental_div_mod_converse(k, chans as int, f as int, c as int);
                assert(decoded.interleaved((f + 1) as nat).take(k + 1) =~= decoded.interleaved(
                    (f + 1) as nat,
                ).take(k).push(s));
            }
            out.push(s);
            c = c + 1;
        }
        proof {
            assert((f + 1) * chans == f * chans + chans) by (nonlinear_arith);
            let all = decoded.interleaved((f + 1) as nat);
            assert(all.take(f * chans + chans) =~= all);
        }
        f = f + 1;
    }
}

/// Signed samples of up to 32 bits lose nothing: the low bits are zero and the
/// rest is the sample.
pub proof fn law_signed_samples_are_lossless(bits: u32, d: int)
    requires
        1 <= bits <= 32,
        -pow2((bits - 1) as nat) <= d < pow2((bits - 1) as nat),
    ensures
        wrap_sample(d * sample_unit(bits)) == d * sample_unit(bits),
        wrap_sample(d * sample_unit(bits)) / sample_unit(bits) as int == d,
        wrap_sample(d * sample_unit(bits)) % sample_unit(bits) as int == 0,
{
    let u = sample_unit(bits) as int;
    let half = pow2((bits - 1) as nat) as int;
    lemma_pow2_adds((bits - 1) as nat, (32 - bits) as nat);
    lemma2_to64();
    lemma_pow2_pos((32 - bits) as nat);
    assert(half * u == 0x8000_0000);
    assert(-0x8000_0000 <= d * u < 0x8000_0000) by (nonlinear_arith)
        requires
            -half <= d < half,
            half * u == 0x8000_0000,
            u > 0,
    ;
    lemma_fundamental_div_mod_converse(d * u, u, d, 0);
}

/// Unsigned samples of up to 32 bits lose nothing either.
pub proof fn law_unsigned_samples_are_lossless(bits: u32, d: int)
    requires
        1 <= bits <= 32,
        0 <= d < pow2(bits as nat),
    ensures
        wrap_sample(d * sample_unit(bits) - 0x8000_0000) == d * sample_unit(bits) - 0x8000_0000,
        (wrap_sample(d * sample_unit(bits) - 0x8000_0000) + 0x8000_0000) / sample_unit(bits) as int
            == d,
{
    let u = sample_unit(bits) as int;
    let full = pow2(bits as nat) as int;
    lemma_pow2_adds(bits as nat, (32 - bits) as nat);
    lemma2_to64();
    lemma_pow2_pos((32 - bits) as nat);
    assert(full * u == 0x1_0000_0000);
    assert(0 <= d * u < 0x1_0000_0000) by (nonlinear_arith)
        requires
            0 <= d < full,
            full * u == 0x1_0000_0000,
            u > 0,
    ;
    lemma_fundamental_div_mod_converse(d * u, u, d, 0);
}

/// What reading the next packet of a stream came to.
#[derive(Debug)]
pub enum PacketEvent {
    /// A packet of the given track.
    Packet(u32),
    /// The stream ended.
    EndOfStream,
    /// The file ended inside the stream.
    UnexpectedEof,
    /// The stream cannot go on without a new decoder.
    ResetRequired,
    /// Another error, in words.
    Failed(String),
}

/// What decoding a packet came to.
#[derive(Debug)]
pub enum DecodeEvent {
    /// A buffer of `frames` frames at `rate` Hz in `channels` channels.
    Decoded { rate: u32, channels: u32, planes: Planes, frames: usize },
    /// The packet is corrupt.
    Corrupt,
    /// The file ended inside the packet.
    UnexpectedEof,
    /// Another error, in words.
    Failed(String),
}

/// What to do next.
#[derive(Debug)]
pub enum ReadStep {
    /// Decode the packet at hand.
    Decode,
    /// Go on to the next packet.
    Next,
    /// The audio is complete.
    Stop,
    /// Give up, for the reason given.
    Fail(String),
}

/// A stream while it is read.
#[derive(Debug)]
pub struct Reader {
    track: u32,
    rate: u32,
    channels: u32,
    samples: Vec<i32>,
}

impl Reader {
    pub closed spec fn track(&self) -> u32 {
        self.track
    }

    /// The sample rate of the first buffer that has one; 0 before.
    pub closed spec fn rate(&self) -> u32 {
        self.rate
    }

    /// The channels of that buffer.
    pub closed spec fn channels(&self) -> u32 {
        self.channels
    }

    /// The samples decoded so far.
    pub closed spec fn samples(&self) -> Seq<i32> {
        self.samples@
    }

    /// Starts to read one track.
    pub fn new(track: u32) -> (r: Reader)
        ensures
            r.track() == track,
            r.rate() == 0,
            r.channels() == 0,
            r.samples() == Seq::<i32>::empty(),
    {
        Reader { track, rate: 0, channels: 0, samples: Vec::new() }
    }

    /// What to do with the next packet: packets of the track are decoded, others
    /// passed over; a stream that ends or has to be reset is complete, other
    /// errors are final.
    pub fn on_packet(&self, event: PacketEvent) -> (step: ReadStep)
        ensures
            match event {
                PacketEvent::Packet(track) => if track == self.track() {
                    step is Decode
                } else {
                    step is Next
                },
                PacketEvent::EndOfStream => step is Stop,
                PacketEvent::UnexpectedEof => step is Stop,
                PacketEvent::ResetRequired => step is Stop,
                PacketEvent::Failed(e) => step matches ReadStep::Fail(why) && why@
                    == "error reading stream: "@ + e@,
            },
    {
        match event {
            PacketEvent::Packet(track) => {
                if track != self.track {
                    ReadStep::Next
                } else {
                    ReadStep::Decode
                }
            },
            PacketEvent::EndOfStream => ReadStep::Stop,
            PacketEvent::UnexpectedEof => ReadStep::Stop,
            PacketEvent::ResetRequired => ReadStep::Stop,
            PacketEvent::Failed(e) => {
                let mut why = "error reading stream: ".to_string();
                why.append(e.as_str());
                ReadStep::Fail(why)
            },
        }
    }

    /// Takes what a packet decoded to. The first buffer with a sample rate fixes
    /// rate and channels. A corrupt packet is passed over.
    pub fn on_decoded(&mut self, event: DecodeEvent) -> (step: ReadStep)
        requires
            event matches DecodeEvent::Decoded { planes, frames, .. } ==> planes.holds(
                frames as nat,
            ),
        ensures
            final(self).track() == old(self).track(),
            match event {
                DecodeEvent::Decoded { rate, channels, planes, frames } => {
                    &&& step is Next
                    &&& final(self).samples() == old(self).samples() + planes.interleaved(
                        frames as nat,
                    )
                    &&& final(self).rate() == if old(self).rate() == 0 {
                        rate
                    } else {
                        old(self).rate()
                    }
                    &&& final(self).channels() == if old(self).rate() == 0 {
                        channels
                    } else {
                        old(self).channels()
                    }
                },
                DecodeEvent::Corrupt => step is Next && *final(self) == *old(self),
                DecodeEvent::UnexpectedEof => step is Stop && *final(self) == *old(self),
                DecodeEvent::Failed(e) => {
                    &&& step matches ReadStep::Fail(why) && why@ == "decode error: "@ + e@
                    &&& *final(self) == *old(self)
                },
            },
    {
        match event {
            DecodeEvent::Decoded { rate, channels, planes, frames } => {
                if self.rate == 0 {
                    self.rate = rate;
                    self.channels = channels;
                }
                append_samples(&planes, frames, &mut self.samples);
                ReadStep::Next
            },
            DecodeEvent::Corrupt => ReadStep::Next,
            DecodeEvent::UnexpectedEof => ReadStep::Stop,
            DecodeEvent::Failed(e) => {
                let mut why = "decode error: ".to_string();
                why.append(e.as_str());
                ReadStep::Fail(why)
            },
        }
    }

    /// The audio read, unless no buffer told its rate or channels.
    pub fn finish(self) -> (audio: Result<Audio, String>)
        ensures
            match audio {
                Ok(a) => {
                    &&& self.rate() != 0 && self.channels() != 0
                    &&& a.rate.finite() && a.rate.value() == self.rate() * pow2(1074)
                    &&& a.channels == self.channels()
                    &&& a.samples@ == self.samples()
                },
                Err(e) => {
                    &&& self.rate() == 0 || self.channels() == 0
                    &&& e@ == "could not determine sample rate / channel count"@
                },
            },
    {
        if self.rate == 0 || self.channels == 0 {
            return Err("could not determine sample rate / channel count".to_string());
        }
        Ok(Audio { rate: Double::from_u32(self.rate), channels: self.channels, samples: self.samples })
    }
}

impl Reader {
    /// Takes the samples decoded so far away.
    pub fn take(&mut self) -> (samples: Vec<i32>)
        ensures
            samples@ == old(self).samples(),
            final(self).samples() == Seq::<i32>::empty(),
            final(self).track() == old(self).track(),
            final(self).rate() == old(self).rate(),
            final(self).channels() == old(self).channels(),
    {
        let mut taken: Vec<i32> = Vec::new();
        std::mem::swap(&mut taken, &mut self.samples);
        taken
    }
}

/// The first track that is audio.
pub fn pick_track(is_audio: &[bool]) -> (r: Result<usize, String>)
    ensures
        match r {
            Ok(i) => {
                &&& i < is_audio@.len()
                &&& is_audio@[i as int]
                &&& forall|k: int| 0 <= k < i ==> !is_audio@[k]
            },
            Err(text) => {
                &&& text@ == "no decodable audio track found"@
                &&& forall|k: int| 0 <= k < is_audio@.len() ==> !is_audio@[k]
            },
        },
{
    let mut i: usize = 0;
    while i < is_audio.len()
        invariant
            i <= is_audio@.len(),
            forall|k: int| 0 <= k < i ==> !is_audio@[k],
        decreases is_audio@.len() - i,
    {
        if is_audio[i] {
            return Ok(i);
        }
        i = i + 1;
    }
    Err("no decodable audio track found".to_string())
}

impl Audio {
    /// Refuses audio without a frame.
    pub fn check(&self) -> (r: Result<(), String>)
        ensures
            match r {
                Ok(_) => self.channels > 0 && self.samples@.len() >= self.channels,
                Err(text) => {
                    &&& text@ == "input file contains no audio samples"@
                    &&& self.channels == 0 || self.samples@.len() < self.channels
                },
            },
    {
        if self.frames() == 0 {
            proof {
                if self.channels > 0 && self.samples@.len() >= self.channels {
                    lemma_has_frames(self.samples@.len() as int, self.channels as int);
                }
            }
            Err("input file contains no audio samples".to_string())
        } else {
            proof {
                if self.samples@.len() < self.channels {
                    lemma_fundamental_div_mod_converse(
                        self.samples@.len() as int,
                        self.channels as int,
                        0,
                        self.samples@.len() as int,
                    );
                }
            }
            Ok(())
        }
    }
}

proof fn lemma_has_frames(len: int, chans: int)
    requires
        0 < chans <= len,
    ensures
        len / chans >= 1,
{
    lemma_fundamental_div_mod_converse(chans, chans, 1, 0);
    vstd::arithmetic::div_mod::lemma_div_is_ordered(chans, len, chans);
}

} // verus!
