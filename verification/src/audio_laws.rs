//! What samples of every format come to.
use crate::audio::{
    law_signed_samples_are_lossless, law_unsigned_samples_are_lossless, rounded_steps, sample_of,
    sample_step, sample_unit, under_half_step, Planes,
};
use crate::double::{scaled, scaled_single, Double};
use crate::fallback::{is_blank, past_blanks, sample_of_bytes, two_numbers};
use crate::time_laws::{all_digits, lemma_number_moves, lemma_past_digits, spelled};
use crate::timeparse::is_digit;
use vstd::arithmetic::div_mod::lemma_fundamental_div_mod_converse;
use vstd::arithmetic::power2::{
    lemma2_to64, lemma_pow2_adds, lemma_pow2_pos, lemma_pow2_strictly_increases, lemma_pow2_unfold,
    pow2,
};
use vstd::prelude::*;

verus! {

/// Where sample `f` of channel `c` stands among interleaved samples.
proof fn lemma_place(p: Planes, frames: nat, c: int, f: int)
    requires
        0 <= c < p.chans(),
        0 <= f < frames,
    ensures
        p.interleaved(frames).len() == frames * p.chans(),
        0 <= f * p.chans() + c < p.interleaved(frames).len(),
        p.interleaved(frames)[f * p.chans() + c] == p.at(c, f) as i32,
{
    let n = p.chans() as int;
    let k = f * n + c;
    assert(0 <= k < frames * n) by (nonlinear_arith)
        requires
            0 <= c < n,
            0 <= f < frames,
            k == f * n + c,
    ;
    lemma_fundamental_div_mod_converse(k, n, f, c);
}

/// The weights of the lowest bits.
proof fn lemma_units()
    ensures
        sample_unit(8) == 0x100_0000,
        sample_unit(16) == 0x1_0000,
        sample_unit(24) == 0x100,
        sample_unit(32) == 1,
        forall|d: int| #[trigger] (d * sample_unit(8)) == d * 0x100_0000,
        forall|d: int| #[trigger] (d * sample_unit(16)) == d * 0x1_0000,
        forall|d: int| #[trigger] (d * sample_unit(24)) == d * 0x100,
        forall|d: int| #[trigger] (d * sample_unit(32)) == d,
{
    lemma2_to64();
    assert(sample_unit(8) == 0x100_0000);
    assert(sample_unit(16) == 0x1_0000);
    assert(sample_unit(24) == 0x100);
    assert(sample_unit(32) == 1);
}

/// Signed samples keep their sign and their size against the full scale: what is appended of
/// a sample of `b` bits is the sample times 2^(32-b), whichever of the formats it has, and
/// frame after frame the channels follow each other in their order.
pub proof fn law_signed_samples_are_scaled_up(p: Planes, frames: nat, c: int, f: int)
    requires
        p.holds(frames),
        0 <= c < p.chans(),
        0 <= f < frames,
    ensures
        p.interleaved(frames).len() == frames * p.chans(),
        p matches Planes::S8(v) ==> p.interleaved(frames)[f * p.chans() + c] == v@[c]@[f]
            * 0x100_0000,
        p matches Planes::S16(v) ==> p.interleaved(frames)[f * p.chans() + c] == v@[c]@[f]
            * 0x1_0000,
        p matches Planes::S24(v) ==> -0x80_0000 <= v@[c]@[f] < 0x80_0000 ==> p.interleaved(
            frames,
        )[f * p.chans() + c] == v@[c]@[f] * 0x100,
        p matches Planes::S32(v) ==> p.interleaved(frames)[f * p.chans() + c] == v@[c]@[f],
{
    lemma_place(p, frames, c, f);
    lemma2_to64();
    lemma_units();
    match p {
        Planes::S8(v) => law_signed_samples_are_lossless(8, v@[c]@[f] as int),
        Planes::S16(v) => law_signed_samples_are_lossless(16, v@[c]@[f] as int),
        Planes::S24(v) => {
            if -0x80_0000 <= v@[c]@[f] < 0x80_0000 {
                law_signed_samples_are_lossless(24, v@[c]@[f] as int);
            }
        },
        Planes::S32(v) => {
            law_signed_samples_are_lossless(32, v@[c]@[f] as int);
        },
        _ => {},
    }
}

/// Unsigned samples stand as far above or below zero as they do above or below the middle
/// of their range: what is appended of a sample of `b` bits is what it exceeds 2^(b-1) by,
/// times 2^(32-b).
pub proof fn law_unsigned_samples_are_centred(p: Planes, frames: nat, c: int, f: int)
    requires
        p.holds(frames),
        0 <= c < p.chans(),
        0 <= f < frames,
    ensures
        p matches Planes::U8(v) ==> p.interleaved(frames)[f * p.chans() + c] == (v@[c]@[f] - 0x80)
            * 0x100_0000,
        p matches Planes::U16(v) ==> p.interleaved(frames)[f * p.chans() + c] == (v@[c]@[f]
            - 0x8000) * 0x1_0000,
        p matches Planes::U24(v) ==> v@[c]@[f] < 0x100_0000 ==> p.interleaved(frames)[f * p.chans()
            + c] == (v@[c]@[f] - 0x80_0000) * 0x100,
        p matches Planes::U32(v) ==> p.interleaved(frames)[f * p.chans() + c] == v@[c]@[f]
            - 0x8000_0000,
{
    lemma_place(p, frames, c, f);
    lemma2_to64();
    lemma_units();
    match p {
        Planes::U8(v) => law_unsigned_samples_are_lossless(8, v@[c]@[f] as int),
        Planes::U16(v) => law_unsigned_samples_are_lossless(16, v@[c]@[f] as int),
        Planes::U24(v) => {
            if v@[c]@[f] < 0x100_0000 {
                law_unsigned_samples_are_lossless(24, v@[c]@[f] as int);
            }
        },
        Planes::U32(v) => {
            law_unsigned_samples_are_lossless(32, v@[c]@[f] as int);
        },
        _ => {},
    }
}

/// A whole number of sample steps, rounded, is that number.
proof fn lemma_whole_steps(k: nat)
    requires
        k <= 0x8000_0000,
    ensures
        rounded_steps(k * sample_step()) == k,
        k < 0x8000_0000 ==> 2 * (k * sample_step()) < 0xFFFF_FFFF * sample_step(),
        2 * (k * sample_step()) < 0x1_0000_0001 * sample_step(),
{
    let step = sample_step() as int;
    lemma_pow2_pos(1043);
    lemma_pow2_unfold(1043);
    lemma_pow2_pos(989);
    lemma_pow2_strictly_increases(989, 1042);
    assert(k * step != under_half_step()) by {
        // what is less than half a step and more than nothing is no whole step
        assert(0 < under_half_step() < step);
        assert(k * step == 0 || k * step >= step) by (nonlinear_arith)
            requires
                k >= 0,
                step > 0,
        ;
    }
    assert(2 * (k * step) + step == k * (2 * step) + step) by (nonlinear_arith);
    assert(k * (2 * step) == (2 * step) * k) by (nonlinear_arith);
    lemma_fundamental_div_mod_converse(2 * (k * step) + step, 2 * step, k as int, step);
    assert(2 * (k * step) < 0x1_0000_0001 * step) by (nonlinear_arith)
        requires
            k <= 0x8000_0000,
            step > 0,
    ;
    if k < 0x8000_0000 {
        assert(2 * (k * step) < 0xFFFF_FFFF * step) by (nonlinear_arith)
            requires
                k <= 0x7FFF_FFFF,
                step > 0,
        ;
    }
}

/// Samples in floating point, whose full scale is one, keep their sign and their size: of a
/// number of `k` parts in 2^31 it is `k` that is appended, from the least sample to the
/// largest. What is more is clipped, and what is no number is silence.
pub proof fn law_floating_samples_are_parts_of_full_scale(
    p: Planes,
    frames: nat,
    c: int,
    f: int,
    k: int,
)
    requires
        p.holds(frames),
        0 <= c < p.chans(),
        0 <= f < frames,
        -0x8000_0000 <= k < 0x8000_0000,
    ensures
        p matches Planes::F64(v) ==> {
            let d = Double { bits: v@[c]@[f] };
            let got = p.interleaved(frames)[f * p.chans() + c];
            &&& d.finite() && d.value() == k * sample_step() ==> got == k
            &&& !d.nan() && !d.negative() && (!d.finite() || d.value() >= 0x8000_0000
                * sample_step()) ==> got == i32::MAX
            &&& !d.nan() && d.negative() && !d.finite() ==> got == i32::MIN
            &&& d.nan() ==> got == 0
        },
        p matches Planes::F32(v) ==> {
            let bits = v@[c]@[f];
            let mag = bits % 0x8000_0000;
            let got = p.interleaved(frames)[f * p.chans() + c];
            // in units of 2^-149, a part in 2^31 is 2^118
            &&& mag < 0x7F80_0000 && scaled_single(mag) == k * pow2(118) && bits < 0x8000_0000
                ==> got == k
            &&& mag < 0x7F80_0000 && scaled_single(mag) == -k * pow2(118) && bits >= 0x8000_0000
                ==> got == k
            &&& mag == 0x7F80_0000 ==> got == if bits < 0x8000_0000 {
                i32::MAX
            } else {
                i32::MIN
            }
            &&& mag > 0x7F80_0000 ==> got == 0
        },
{
    lemma_place(p, frames, c, f);
    let step = sample_step() as int;
    lemma_pow2_pos(1043);
    let n = (if k < 0 {
        -k
    } else {
        k
    }) as nat;
    lemma_whole_steps(n);
    assert(-k * step == -(k * step)) by (nonlinear_arith);
    assert(k * step >= 0 <==> k >= 0) by (nonlinear_arith)
        requires
            step > 0,
    ;
    assert(k * step == 0 <==> k == 0) by (nonlinear_arith)
        requires
            step > 0,
    ;
    match p {
        Planes::F64(v) => {
            let d = Double { bits: v@[c]@[f] };
            if d.finite() && d.value() == k * step {
                assert(scaled(d.magnitude()) == n * step);
                assert(sample_of(d) == k);
            }
            if !d.nan() && !d.negative() && d.finite() && d.value() >= 0x8000_0000 * step {
                assert(2 * d.value() >= 0xFFFF_FFFF * step);
            }
        },
        Planes::F32(v) => {
            let bits = v@[c]@[f];
            let mag = bits % 0x8000_0000;
            lemma_pow2_adds(118, 925);
            lemma_pow2_pos(118);
            let s = scaled_single(mag) as int;
            if mag < 0x7F80_0000 && s == k * pow2(118) && bits < 0x8000_0000 {
                assert(s * pow2(925) == k * step) by (nonlinear_arith)
                    requires
                        s == k * pow2(118),
                        step == pow2(118) * pow2(925),
                ;
                assert(k >= 0) by (nonlinear_arith)
                    requires
                        s == k * pow2(118),
                        s >= 0,
                        pow2(118) > 0,
                ;
            }
            if mag < 0x7F80_0000 && s == -k * pow2(118) && bits >= 0x8000_0000 {
                assert(s * pow2(925) == -k * step) by (nonlinear_arith)
                    requires
                        s == -k * pow2(118),
                        step == pow2(118) * pow2(925),
                ;
                assert(k <= 0) by (nonlinear_arith)
                    requires
                        s == -k * pow2(118),
                        s >= 0,
                        pow2(118) > 0,
                ;
            }
        },
        _ => {},
    }
}

/// Four bytes hold any sample, the lowest first and the sign in the last.
pub proof fn law_bytes_hold_samples(a: u8, b: u8, c: u8, d: u8)
    ensures
        sample_of_bytes(a, b, c, d) == a + 0x100 * b + 0x1_0000 * c + 0x100_0000 * (if d < 0x80 {
            d as int
        } else {
            d - 0x100
        }),
{
}

/// Whether a text is nothing but spaces, tabs and ends of lines.
pub open spec fn all_blank(b: Seq<u8>) -> bool {
    forall|i: int|
        0 <= i < b.len() ==> #[trigger] b[i] == ' ' as u8 || b[i] == '\t' as u8 || b[i]
            == '\n' as u8 || b[i] == '\r' as u8
}

proof fn lemma_past_blanks(b: Seq<u8>, from: int, to: int)
    requires
        0 <= from <= to <= b.len(),
        forall|i: int| from <= i < to ==> is_blank(#[trigger] b[i]),
        to < b.len() ==> !is_blank(b[to]),
    ensures
        past_blanks(b, from) == to,
    decreases to - from,
{
    if from < to {
        assert(is_blank(b[from]));
        lemma_past_blanks(b, from + 1, to);
    }
}

/// A line of two numbers with a comma between them, and blanks before and behind, is the rate
/// and the channels, in this order, wherever both fit into 32 bits; and is none where not.
pub proof fn law_a_line_is_rate_and_channels(
    before: Seq<u8>,
    rate: Seq<u8>,
    channels: Seq<u8>,
    behind: Seq<u8>,
)
    requires
        all_blank(before),
        all_digits(rate),
        all_digits(channels),
        all_blank(behind),
    ensures
        ({
            let line = before + rate + seq![',' as u8] + channels + behind;
            &&& spelled(rate) <= u32::MAX && spelled(channels) <= u32::MAX ==> two_numbers(line)
                == Some((spelled(rate) as u32, spelled(channels) as u32))
            &&& spelled(rate) > u32::MAX || spelled(channels) > u32::MAX ==> two_numbers(line)
                is None
        }),
{
    let line = before + rate + seq![',' as u8] + channels + behind;
    assert(' ' as u8 == 32 && '\t' as u8 == 9 && '\n' as u8 == 10 && '\r' as u8 == 13 && ',' as u8
        == 44);
    let at = before.len() as int;
    let comma = at + rate.len();
    let end = comma + 1 + channels.len();
    let len = end + behind.len();
    assert(line.len() == len);
    assert forall|i: int| 0 <= i < at implies is_blank(#[trigger] line[i]) by {
        assert(line[i] == before[i]);
    }
    assert forall|i: int| at <= i < comma implies is_digit(#[trigger] line[i]) by {
        assert(line[i] == rate[i - at]);
    }
    assert(line[comma] == 44);
    assert forall|i: int| comma + 1 <= i < end implies is_digit(#[trigger] line[i]) by {
        assert(line[i] == channels[i - comma - 1]);
    }
    assert forall|i: int| end <= i < len implies is_blank(#[trigger] line[i]) by {
        assert(line[i] == behind[i - end]);
    }
    assert(is_digit(line[at]));
    lemma_past_blanks(line, 0, at);
    lemma_past_digits(line, at, comma);
    if end < len {
        assert(is_blank(line[end]));
    }
    lemma_past_digits(line, comma + 1, end);
    lemma_past_blanks(line, end, len);
    assert forall|i: int| 0 <= i < comma - at implies line[at + i] == #[trigger] rate[i] by {}
    assert forall|i: int| 0 <= i < end - comma - 1 implies line[comma + 1 + i]
        == #[trigger] channels[i] by {}
    lemma_number_moves(line, at, comma, rate);
    lemma_number_moves(line, comma + 1, end, channels);
}

} // verus!
