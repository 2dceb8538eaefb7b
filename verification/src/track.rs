//! What is said of a track above its spectrogram.
use crate::arith::{difference, quotient, whole, whole_part};
use crate::double::{scaled, Double, INFINITE, SIGN};
use crate::labels::{as_i64, one_decimal, one_decimal_text};
use crate::text::{decimal, digits, signed_decimal, signed_digits};
use crate::viewer::TrackInfo;
use crate::window::{absolute, fraction, ratio, WindowType};
use vstd::arithmetic::power2::pow2;
use vstd::prelude::*;
use vstd::string::*;

verus! {

/// The formats that have a name of their own.
#[derive(Clone, Copy, Debug, PartialEq, Eq, Structural)]
pub enum FileKind {
    Flac,
    Mpeg,
    Wav,
    Aiff,
    Vorbis,
    Opus,
    Mp4,
    Aac,
    Ape,
    WavPack,
    Mpc,
    Speex,
    Other,
}

/// The name of a format.
pub open spec fn kind_name(kind: FileKind) -> Seq<char> {
    match kind {
        FileKind::Flac => "FLAC"@,
        FileKind::Mpeg => "MP3"@,
        FileKind::Wav => "WAV"@,
        FileKind::Aiff => "AIFF"@,
        FileKind::Vorbis => "OGG Vorbis"@,
        FileKind::Opus => "Opus"@,
        FileKind::Mp4 => "MP4/AAC"@,
        FileKind::Aac => "AAC"@,
        FileKind::Ape => "APE"@,
        FileKind::WavPack => "WavPack"@,
        FileKind::Mpc => "Musepack"@,
        FileKind::Speex => "Speex"@,
        FileKind::Other => "Audio"@,
    }
}

/// The name of a format.
pub fn file_type_name(kind: FileKind) -> (name: String)
    ensures
        name@ == kind_name(kind),
{
    match kind {
        FileKind::Flac => "FLAC".to_string(),
        FileKind::Mpeg => "MP3".to_string(),
        FileKind::Wav => "WAV".to_string(),
        FileKind::Aiff => "AIFF".to_string(),
        FileKind::Vorbis => "OGG Vorbis".to_string(),
        FileKind::Opus => "Opus".to_string(),
        FileKind::Mp4 => "MP4/AAC".to_string(),
        FileKind::Aac => "AAC".to_string(),
        FileKind::Ape => "APE".to_string(),
        FileKind::WavPack => "WavPack".to_string(),
        FileKind::Mpc => "Musepack".to_string(),
        FileKind::Speex => "Speex".to_string(),
        FileKind::Other => "Audio".to_string(),
    }
}

/// What is known of a track.
#[derive(Debug)]
pub struct Track {
    pub file_name: String,
    pub file_stem: String,
    /// The ending of the file name in capitals, if it has one.
    pub extension: Option<String>,
    /// The format, if the tags could be read.
    pub kind: Option<FileKind>,
    /// The artist, without spaces around it, if the tags hold one.
    pub artist: Option<String>,
    /// The title, without spaces around it, if the tags hold one.
    pub title: Option<String>,
    pub bit_depth: Option<u8>,
}

/// A text that is there and not empty.
pub open spec fn said(t: Option<String>) -> Option<Seq<char>> {
    match t {
        Some(s) => if s@.len() == 0 {
            None
        } else {
            Some(s@)
        },
        None => None,
    }
}

/// Artist and title, as far as they are known; the file's name stands in for a title.
pub open spec fn headline(t: Track) -> Seq<char> {
    match (said(t.artist), said(t.title)) {
        (Some(a), Some(b)) => a + " — "@ + b,
        (None, Some(b)) => b,
        (Some(a), None) => a + " — "@ + t.file_stem@,
        (None, None) => t.file_name@,
    }
}

/// The format: by the tags, else by the file's name.
pub open spec fn format_text(t: Track) -> Seq<char> {
    match t.kind {
        Some(k) => kind_name(k),
        None => match t.extension {
            Some(e) => e@,
            None => "Audio"@,
        },
    }
}

/// Whether a number has as good as no fraction.
pub open spec fn without_fraction(v: Double) -> bool {
    absolute(difference(v, truncated(v))).less(ratio(1, 1_000_000))
}

/// A number without its fraction.
pub open spec fn truncated(v: Double) -> Double {
    if v.nan() || scaled(v.magnitude()) % pow2(1074) == 0 {
        v
    } else if v.negative() {
        crate::convert::ceiled(v)
    } else {
        crate::convert::floored(v)
    }
}

/// A sample rate in thousands.
pub open spec fn rate_text(rate: Double) -> Seq<char> {
    let k = quotient(rate, whole(1000));
    if without_fraction(k) {
        signed_digits(as_i64(whole_part(k))) + " kHz"@
    } else if k.nan() {
        "NaN kHz"@
    } else if k.magnitude() == INFINITE {
        (if k.negative() {
            "-inf kHz"@
        } else {
            "inf kHz"@
        })
    } else {
        one_decimal_text(k) + " kHz"@
    }
}

/// The length of a sample, or a dash.
pub open spec fn depth_text(depth: Option<u8>) -> Seq<char> {
    match depth {
        Some(b) => digits(b as nat) + "-bit"@,
        None => "—"@,
    }
}

/// The technical line.
pub open spec fn details(
    t: Track,
    rate: Double,
    channels: u32,
    dft_size: int,
    win_type: WindowType,
) -> Seq<char> {
    format_text(t) + " · "@ + digits(channels as nat) + " ch · "@ + rate_text(rate) + " · "@
        + depth_text(t.bit_depth) + " · "@ + signed_digits(dft_size) + "-pt · "@
        + win_type.spelled()
}

fn is_said(t: &Option<String>) -> (b: bool)
    ensures
        b == (said(*t) is Some),
{
    match t {
        Some(s) => s.as_str().unicode_len() > 0,
        None => false,
    }
}

fn rate_label(rate: Double) -> (text: String)
    ensures
        text@ == rate_text(rate),
{
    let k = rate.over(Double::from_i64(1000));
    let cut = if k.bits >= SIGN {
        k.ceil()
    } else {
        k.floor()
    };
    assert(cut == truncated(k));
    let off = k.minus(cut);
    if (Double { bits: off.bits % SIGN }).lt(fraction(1, 1_000_000)) {
        let mut text = signed_decimal(k.to_i64());
        text.append(" kHz");
        text
    } else if k.is_nan() {
        "NaN kHz".to_string()
    } else if k.bits % SIGN == INFINITE {
        if k.bits >= SIGN {
            "-inf kHz".to_string()
        } else {
            "inf kHz".to_string()
        }
    } else {
        proof {
            lemma_has_fraction(k);
        }
        let mut text = one_decimal(k);
        text.append(" kHz");
        text
    }
}

proof fn lemma_has_fraction(k: Double)
    requires
        k.finite(),
        !without_fraction(k),
    ensures
        scaled(k.magnitude()) % pow2(1074) != 0,
{
    if scaled(k.magnitude()) % pow2(1074) == 0 {
        let n = crate::arith::negated(k);
        assert(n.magnitude() == k.magnitude() && n.negative() == !k.negative());
        assert(k.value() + n.value() == 0);
        assert(difference(k, k).magnitude() == 0);
        crate::labels::lemma_millionth();
    }
}

fn headline_of(t: &Track) -> (text: String)
    ensures
        text@ == headline(*t),
{
    let artist = is_said(&t.artist);
    let title = is_said(&t.title);
    let mut text: String = "".to_string();
    proof {
        reveal_strlit("");
    }
    assert(text@ =~= Seq::empty());
    if artist {
        if let Some(a) = &t.artist {
            text.append(a.as_str());
            assert(text@ =~= a@);
        }
        text.append(" — ");
    }
    if title {
        if let Some(b) = &t.title {
            text.append(b.as_str());
        }
    } else if artist {
        text.append(t.file_stem.as_str());
    } else {
        text.append(t.file_name.as_str());
    }
    assert(text@ =~= headline(*t));
    text
}

/// The two lines about a track.
pub fn track_info(
    t: &Track,
    rate: Double,
    channels: u32,
    dft_size: i32,
    win_type: WindowType,
) -> (info: TrackInfo)
    ensures
        info.line1@ == headline(*t),
        info.line2@ == details(*t, rate, channels, dft_size as int, win_type),
{
    let line1 = headline_of(t);
    let mut line2 = match t.kind {
        Some(k) => file_type_name(k),
        None => match &t.extension {
            Some(e) => e.as_str().to_string(),
            None => "Audio".to_string(),
        },
    };
    line2.append(" · ");
    let n = decimal(channels as u64);
    line2.append(n.as_str());
    line2.append(" ch · ");
    let r = rate_label(rate);
    line2.append(r.as_str());
    line2.append(" · ");
    match t.bit_depth {
        Some(b) => {
            let d = decimal(b as u64);
            line2.append(d.as_str());
            line2.append("-bit");
        },
        None => {
            line2.append("—");
        },
    }
    line2.append(" · ");
    let p = signed_decimal(dft_size as i64);
    line2.append(p.as_str());
    line2.append("-pt · ");
    line2.append(win_type.name());
    assert(line2@ =~= details(*t, rate, channels, dft_size as int, win_type));
    TrackInfo { line1, line2 }
}

/// What is said of a load that has failed.
pub fn failure(file_name: &str, why: &str) -> (text: String)
    ensures
        text@ == "Failed to load "@ + file_name@ + ": "@ + why@,
{
    let mut text = "Failed to load ".to_string();
    text.append(file_name);
    text.append(": ");
    text.append(why);
    text
}

} // verus!
