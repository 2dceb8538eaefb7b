//! Samples and the reading of a stream.
use rustspeck::audio::{
    append_samples, float_to_sample, pick_track, signed_to_sample, unsigned_to_sample, Audio,
    DecodeEvent, PacketEvent, Planes, ReadStep, Reader,
};
use rustspeck::double::Double;
use rustspeck::fallback::{little_endian, probe_numbers, refused, Refusal};

const SOX_SAMPLE_MAX: i64 = 0x7FFF_FFFF;
const SOX_SAMPLE_MIN: i64 = -0x8000_0000;

fn d(x: f64) -> Double {
    Double { bits: x.to_bits() }
}

#[test]
fn signed16_conversion_matches_sox() {
    assert_eq!(signed_to_sample(16, 1), 1 << 16);
    assert_eq!(signed_to_sample(16, -1), -(1 << 16));
    assert_eq!(signed_to_sample(16, i16::MAX as i32), (i16::MAX as i32) << 16);
    assert_eq!(signed_to_sample(16, i16::MIN as i32), i32::MIN);
}

#[test]
fn unsigned8_conversion_matches_sox() {
    assert_eq!(unsigned_to_sample(8, 128), 0);
    assert_eq!(unsigned_to_sample(8, 0), i32::MIN);
    assert_eq!(unsigned_to_sample(8, 255), 0x7F00_0000);
}

#[test]
fn float_conversion_rounds_and_clips() {
    assert_eq!(float_to_sample(d(0.0)), 0);
    assert_eq!(float_to_sample(d(1.0)), SOX_SAMPLE_MAX as i32);
    assert_eq!(float_to_sample(d(-1.0)), SOX_SAMPLE_MIN as i32);
    let half = 1.0 / (SOX_SAMPLE_MAX as f64 + 1.0);
    assert_eq!(float_to_sample(d(half)), 1);
}

fn reference(d: f64) -> i32 {
    let tmp = d * 2147483648.0;
    if tmp < 0.0 {
        if tmp <= -2147483648.5 {
            return i32::MIN;
        }
        (tmp - 0.5) as i32
    } else if tmp >= 2147483647.5 {
        i32::MAX
    } else {
        (tmp + 0.5) as i32
    }
}

#[test]
fn float_conversion_agrees_with_the_formula() {
    let mut s: u64 = 12345;
    for _ in 0..50000 {
        s ^= s << 13;
        s ^= s >> 7;
        s ^= s << 17;
        let x = (s >> 11) as f64 / (1u64 << 52) as f64 - 1.0;
        for v in [x, x * 1e-9, x * 1e-10, x * 3.0] {
            assert_eq!(float_to_sample(d(v)), reference(v), "{v:e}");
        }
        let v = f64::from_bits(s);
        assert_eq!(float_to_sample(d(v)), reference(v), "{v:e}");
    }
    for v in [f64::NAN, f64::INFINITY, f64::NEG_INFINITY, -0.0, 5e-324] {
        assert_eq!(float_to_sample(d(v)), reference(v));
    }
}

#[test]
fn integer_samples_come_back() {
    for v in [-128i32, -1, 0, 1, 127] {
        assert_eq!(signed_to_sample(8, v) >> 24, v);
    }
    for v in [-8388608i32, -1, 0, 5, 8388607] {
        assert_eq!(signed_to_sample(24, v) >> 8, v);
    }
    assert_eq!(signed_to_sample(32, -7), -7);
    for v in [0u32, 1, 32768, 65535] {
        assert_eq!((unsigned_to_sample(16, v) as u32 ^ 0x8000_0000) >> 16, v);
    }
}

#[test]
fn planes_are_interleaved() {
    let mut out = vec![9];
    append_samples(&Planes::S16(vec![vec![1, 2], vec![-1, -2]]), 2, &mut out);
    assert_eq!(out, vec![9, 1 << 16, -(1 << 16), 2 << 16, -(2 << 16)]);
    let mut out = Vec::new();
    append_samples(&Planes::U8(vec![vec![128, 255]]), 2, &mut out);
    assert_eq!(out, vec![0, 0x7F00_0000]);
    let mut out = Vec::new();
    append_samples(&Planes::F32(vec![vec![0.5f32.to_bits(), (-1.0f32).to_bits()]]), 2, &mut out);
    assert_eq!(out, vec![1 << 30, i32::MIN]);
    let mut out = Vec::new();
    append_samples(&Planes::F64(vec![vec![d(0.25).bits]]), 1, &mut out);
    assert_eq!(out, vec![1 << 29]);
    let mut out = Vec::new();
    append_samples(&Planes::S24(vec![vec![3]]), 1, &mut out);
    append_samples(&Planes::S32(vec![vec![4]]), 1, &mut out);
    append_samples(&Planes::S8(vec![vec![5]]), 1, &mut out);
    append_samples(&Planes::U16(vec![vec![0x8001]]), 1, &mut out);
    append_samples(&Planes::U24(vec![vec![0x80_0001]]), 1, &mut out);
    append_samples(&Planes::U32(vec![vec![0x8000_0001]]), 1, &mut out);
    assert_eq!(out, vec![3 << 8, 4, 5 << 24, 1 << 16, 1 << 8, 1]);
}

#[test]
fn a_reader_takes_its_track_alone() {
    let r = Reader::new(3);
    assert!(matches!(r.on_packet(PacketEvent::Packet(3)), ReadStep::Decode));
    assert!(matches!(r.on_packet(PacketEvent::Packet(4)), ReadStep::Next));
    assert!(matches!(r.on_packet(PacketEvent::EndOfStream), ReadStep::Stop));
    assert!(matches!(r.on_packet(PacketEvent::UnexpectedEof), ReadStep::Stop));
    assert!(matches!(r.on_packet(PacketEvent::ResetRequired), ReadStep::Stop));
    match r.on_packet(PacketEvent::Failed("oops".to_string())) {
        ReadStep::Fail(why) => assert_eq!(why, "error reading stream: oops"),
        _ => panic!("not a failure"),
    }
}

#[test]
fn a_corrupt_packet_is_passed_over() {
    let mut r = Reader::new(0);
    let one = DecodeEvent::Decoded {
        rate: 44100,
        channels: 1,
        planes: Planes::S16(vec![vec![1]]),
        frames: 1,
    };
    assert!(matches!(r.on_decoded(one), ReadStep::Next));
    assert!(matches!(r.on_decoded(DecodeEvent::Corrupt), ReadStep::Next));
    let two = DecodeEvent::Decoded {
        rate: 8000,
        channels: 2,
        planes: Planes::S16(vec![vec![2]]),
        frames: 1,
    };
    r.on_decoded(two);
    assert!(matches!(r.on_decoded(DecodeEvent::UnexpectedEof), ReadStep::Stop));
    match r.on_decoded(DecodeEvent::Failed("bad".to_string())) {
        ReadStep::Fail(why) => assert_eq!(why, "decode error: bad"),
        _ => panic!("not a failure"),
    }
    let a = r.finish().unwrap();
    assert_eq!(f64::from_bits(a.rate.bits), 44100.0);
    assert_eq!(a.channels, 1);
    assert_eq!(a.samples, vec![1 << 16, 2 << 16]);
    assert_eq!(a.frames(), 2);
}

#[test]
fn a_stream_without_buffers_is_refused() {
    let e = Reader::new(0).finish().unwrap_err();
    assert_eq!(e, "could not determine sample rate / channel count");
}

#[test]
fn taking_leaves_nothing_behind() {
    let mut r = Reader::new(0);
    r.on_decoded(DecodeEvent::Decoded {
        rate: 1,
        channels: 1,
        planes: Planes::S32(vec![vec![5, 6]]),
        frames: 2,
    });
    assert_eq!(r.take(), vec![5, 6]);
    assert_eq!(r.take(), Vec::<i32>::new());
}

#[test]
fn the_first_audio_track_is_picked() {
    assert_eq!(pick_track(&[false, true, true]).unwrap(), 1);
    assert_eq!(pick_track(&[false]).unwrap_err(), "no decodable audio track found");
}

#[test]
fn audio_without_frames_is_refused() {
    let a = Audio { rate: d(8000.0), channels: 2, samples: vec![1] };
    assert_eq!(a.frames(), 0);
    assert_eq!(a.check().unwrap_err(), "input file contains no audio samples");
    let a = Audio { rate: d(8000.0), channels: 0, samples: vec![1] };
    assert_eq!(a.frames(), 0);
    let a = Audio { rate: d(8000.0), channels: 2, samples: vec![1, 2, 3, 4, 5] };
    assert_eq!(a.frames(), 2);
    assert!(a.check().is_ok());
}

#[test]
fn a_probe_tells_rate_and_channels() {
    assert_eq!(probe_numbers(b"44100,2\n"), Some((44100, 2)));
    assert_eq!(probe_numbers(b" 48000,6\r\n"), Some((48000, 6)));
    assert_eq!(probe_numbers(b"4294967295,0"), Some((u32::MAX, 0)));
    for line in ["", "44100", "44100,", ",2", "44100;2", "44100,2,1", "4 4,2", "-1,2", "+1,2"] {
        assert_eq!(probe_numbers(line.as_bytes()), None, "{line}");
    }
    assert_eq!(probe_numbers(b"4294967296,2"), None);
    assert_eq!(probe_numbers(b"1,99999999999999999999999"), None);
}

#[test]
fn bytes_become_samples() {
    let want = [0, 1, -1, i32::MIN, i32::MAX, 0x0102_0304, -77_777_777];
    let mut bytes: Vec<u8> = want.iter().flat_map(|x: &i32| x.to_le_bytes()).collect();
    assert_eq!(little_endian(&bytes), want);
    bytes.extend([1, 2, 3]);
    assert_eq!(little_endian(&bytes), want);
    assert_eq!(little_endian(&[]), Vec::<i32>::new());
}

#[test]
fn only_unknown_formats_fall_back() {
    let said = |unsupported, ffmpeg| match refused(unsupported, ffmpeg, "no") {
        Refusal::FallBack => None,
        Refusal::Fail(text) => Some(text),
    };
    assert_eq!(said(true, true), None);
    assert_eq!(said(true, false).unwrap(), "no (installing ffmpeg adds more formats)");
    assert_eq!(said(false, true).unwrap(), "no");
    assert_eq!(said(false, false).unwrap(), "no");
}
