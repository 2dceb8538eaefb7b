//! Decoding by an outside program, for formats that the library of decoders does not know.
//!
//! When a file is refused for its format, and the program is at hand, it is asked for the
//! rate and the channels of the file, and then for its samples.
use crate::audio::wrap_sample;
use crate::timeparse::{c_strtol, clamped, holds, number, past_digits, skip_digits, whole_at};
use vstd::prelude::*;
use vstd::string::*;

verus! {

/// What becomes of a file that cannot be decoded.
#[derive(Debug)]
pub enum Refusal {
    /// The program is to decode it.
    FallBack,
    /// It is refused, with what is said of it.
    Fail(String),
}

/// What becomes of a file that cannot be decoded, for the reason `why`. `unsupported` says
/// whether that is its format, and `ffmpeg` whether the program is at hand: where only the
/// program is missing, that is hinted at.
pub fn refused(unsupported: bool, ffmpeg: bool, why: &str) -> (r: Refusal)
    ensures
        if unsupported && ffmpeg {
            r is FallBack
        } else if unsupported {
            r matches Refusal::Fail(text) && text@ == why@
                + " (installing ffmpeg adds more formats)"@
        } else {
            r matches Refusal::Fail(text) && text@ == why@
        },
{
    if unsupported && ffmpeg {
        return Refusal::FallBack;
    }
    let mut text = why.to_string();
    if unsupported {
        text.append(" (installing ffmpeg adds more formats)");
    }
    Refusal::Fail(text)
}

/// Whether a byte is a space, a tab or the end of a line.
pub open spec fn is_blank(c: u8) -> bool {
    c == 32 || c == 9 || c == 10 || c == 13
}

/// The first place from `pos` on that is not blank.
pub open spec fn past_blanks(b: Seq<u8>, pos: int) -> int
    decreases b.len() - pos,
{
    if 0 <= pos < b.len() && is_blank(b[pos]) {
        past_blanks(b, pos + 1)
    } else {
        pos
    }
}

/// Two numbers with a comma between them and blanks around, if a line is that and the
/// numbers fit.
pub open spec fn two_numbers(b: Seq<u8>) -> Option<(u32, u32)> {
    let at = past_blanks(b, 0);
    let comma = past_digits(b, at);
    let end = past_digits(b, comma + 1);
    let first = number(b, at, comma);
    let second = number(b, comma + 1, end);
    if at < comma && holds(b, comma, 44) && comma + 1 < end && past_blanks(b, end) == b.len()
        && first <= u32::MAX && second <= u32::MAX {
        Some((first as u32, second as u32))
    } else {
        None
    }
}

fn skip_blanks(b: &[u8], pos: usize) -> (end: usize)
    requires
        pos <= b@.len(),
    ensures
        end == past_blanks(b@, pos as int),
        pos <= end <= b@.len(),
{
    let mut p: usize = pos;
    while p < b.len() && (b[p] == 32 || b[p] == 9 || b[p] == 10 || b[p] == 13)
        invariant
            pos <= p <= b@.len(),
            past_blanks(b@, p as int) == past_blanks(b@, pos as int),
        decreases b@.len() - p,
    {
        p = p + 1;
    }
    p
}

/// The rate and the channels of a file, from the line that the program prints of them.
pub fn probe_numbers(line: &[u8]) -> (r: Option<(u32, u32)>)
    ensures
        r == two_numbers(line@),
{
    let len = line.len();
    let at = skip_blanks(line, 0);
    let comma = skip_digits(line, at);
    if at == comma || comma >= len || line[comma] != 44 {
        return None;
    }
    let end = skip_digits(line, comma + 1);
    if comma + 1 == end || skip_blanks(line, end) != len {
        return None;
    }
    let (first, _) = c_strtol(line, at);
    let (second, _) = c_strtol(line, comma + 1);
    proof {
        lemma_reads_digits(line@, at as int);
        lemma_reads_digits(line@, comma + 1);
    }
    if first <= u32::MAX as i64 && second <= u32::MAX as i64 {
        Some((first as u32, second as u32))
    } else {
        None
    }
}

/// A number that begins with a digit is read from there.
proof fn lemma_reads_digits(b: Seq<u8>, pos: int)
    requires
        0 <= pos,
        past_digits(b, pos) > pos,
    ensures
        whole_at(b, pos).0 == clamped(
            number(b, pos, past_digits(b, pos)) as int,
        ),
{
}

/// The sample that four bytes stand for, the lowest of them first.
pub open spec fn sample_of_bytes(a: u8, b: u8, c: u8, d: u8) -> int {
    wrap_sample(a + 0x100 * b + 0x1_0000 * c + 0x100_0000 * d)
}

/// Samples of four bytes each, the lowest of them first. Bytes that make no whole sample at
/// the end are left out.
pub fn little_endian(bytes: &[u8]) -> (r: Vec<i32>)
    ensures
        r@.len() == bytes@.len() / 4,
        forall|i: int|
            0 <= i < r@.len() ==> #[trigger] r@[i] == sample_of_bytes(
                bytes@[4 * i],
                bytes@[4 * i + 1],
                bytes@[4 * i + 2],
                bytes@[4 * i + 3],
            ),
{
    let n: usize = bytes.len() / 4;
    let mut r: Vec<i32> = Vec::new();
    let mut i: usize = 0;
    while i < n
        invariant
            i <= n == bytes@.len() / 4,
            r@.len() == i,
            forall|k: int|
                0 <= k < i ==> #[trigger] r@[k] == sample_of_bytes(
                    bytes@[4 * k],
                    bytes@[4 * k + 1],
                    bytes@[4 * k + 2],
                    bytes@[4 * k + 3],
                ),
        decreases n - i,
    {
        let len: usize = bytes.len();
        assert(4 * i + 3 < len);
        let low: i64 = bytes[4 * i] as i64 + 0x100 * bytes[4 * i + 1] as i64;
        let high: i64 = bytes[4 * i + 2] as i64 + 0x100 * bytes[4 * i + 3] as i64;
        let all: i64 = low + 0x1_0000 * high;
        let x: i32 = if all >= 0x8000_0000 {
            (all - 0x1_0000_0000) as i32
        } else {
            all as i32
        };
        r.push(x);
        i = i + 1;
    }
    r
}

} // verus!
