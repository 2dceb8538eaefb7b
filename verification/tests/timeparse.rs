//! Durations and positions.
use rustspeck::double::Double;
use rustspeck::timeparse::{c_strtod, c_strtol, parse_position, parse_samples, parsesamples_from};

fn d(x: f64) -> Double {
    Double { bits: x.to_bits() }
}

fn samples(rate: f64, s: &str) -> Result<u64, String> {
    parse_samples(d(rate), s, b't')
}

fn position(rate: f64, s: &str, latest: u64, end: u64, anchor: u8) -> Result<u64, String> {
    parse_position(d(rate), s, latest, end, anchor)
}

#[test]
fn times_in_words() {
    assert_eq!(samples(8000.0, "48"), Ok(48 * 8000));
    assert_eq!(samples(8000.0, "1:00"), Ok(60 * 8000));
    assert_eq!(samples(8000.0, "1:02:03"), Ok(3723 * 8000));
    assert_eq!(samples(8000.0, "0.5"), Ok(4000));
    assert_eq!(samples(8000.0, "44100s"), Ok(44100));
    assert_eq!(samples(44100.0, "1:30.25"), Ok(90 * 44100 + 11025));
    assert_eq!(samples(44100.0, "3t"), Ok(3 * 44100));
    assert_eq!(samples(44100.0, "  7"), Ok(7 * 44100));
    assert_eq!(samples(44100.0, "1e3s"), Ok(1000));
    assert_eq!(samples(44100.0, "12.5e1s"), Ok(125));
    assert_eq!(samples(44100.0, "0:0.00001"), Ok(0));
    assert_eq!(samples(44100.0, "0:0.00002"), Ok(1));
}

#[test]
fn bare_numbers_follow_the_default() {
    assert_eq!(parse_samples(d(10.0), "48", b't'), Ok(480));
    assert_eq!(parse_samples(d(10.0), "48", b's'), Ok(48));
    assert_eq!(parse_samples(d(10.0), "48t", b's'), Ok(480));
    assert_eq!(parse_samples(d(10.0), "0:48", b's'), Ok(480));
    assert_eq!(parse_samples(d(10.0), "2.5", b's'), Ok(25));
}

#[test]
fn terms_add_up() {
    assert_eq!(samples(100.0, "1+2"), Ok(300));
    assert_eq!(samples(100.0, "5-2"), Ok(300));
    assert_eq!(samples(100.0, "1-2"), Ok(0));
    assert_eq!(samples(100.0, "1-2+3"), Ok(300));
    assert_eq!(samples(100.0, "1:00+50s-10s"), Ok(6040));
    assert_eq!(samples(100.0, "18446744073709551615s+2s"), Ok(1));
}

#[test]
fn the_place_behind_the_terms_is_told() {
    let end = |s: &str| parsesamples_from(s.as_bytes(), 0, false, b't').map(|(v, n)| (v.len(), n));
    assert_eq!(end("48"), Ok((1, 2)));
    assert_eq!(end("48x"), Ok((1, 2)));
    assert_eq!(end("1:00+50s-10s, then"), Ok((3, 12)));
    assert_eq!(end("  7 8"), Ok((1, 3)));
    let (steps, n) = parsesamples_from(b"=3-4", 1, true, b't').unwrap();
    assert_eq!((steps[0].minus, steps[1].minus, n), (true, true, 4));
}

#[test]
fn each_syntax_error_has_its_words() {
    let e = |s: &str| samples(100.0, s).unwrap_err();
    assert_eq!(e(""), "empty number");
    assert_eq!(e("x"), "empty number");
    assert_eq!(e("1+"), "empty number");
    assert_eq!(e("1e3"), "exponent not allowed in a time value");
    assert_eq!(e(":30"), "missing first time component");
    assert_eq!(e("1:2."), "empty fractional part");
    assert_eq!(e("."), "empty fractional part");
    assert_eq!(e("es"), "missing sample count");
    assert_eq!(e("1:2:3:4"), "trailing characters in number");
    assert_eq!(e("1s2"), "trailing characters in number");
    let p = position(100.0, "1", 0, 0, b'x').unwrap_err();
    assert_eq!(p, "invalid default anchor");
}

#[test]
fn positions_have_anchors() {
    assert_eq!(position(10.0, "5", 1000, 2000, b'='), Ok(50));
    assert_eq!(position(10.0, "=5", 1000, 2000, b'+'), Ok(50));
    assert_eq!(position(10.0, "+5", 1000, 2000, b'='), Ok(1050));
    assert_eq!(position(10.0, "-5", 1000, 2000, b'='), Ok(1950));
    assert_eq!(position(10.0, "5", 1000, 2000, b'+'), Ok(1050));
    assert_eq!(position(10.0, "5", 1000, 2000, b'-'), Ok(1950));
    assert_eq!(position(10.0, "+-5", 1000, 2000, b'='), Ok(950));
    assert_eq!(position(10.0, "-+5", 1000, 2000, b'='), Ok(2050));
    assert_eq!(position(10.0, "0:30", 0, 0, b'='), Ok(300));
    assert_eq!(position(10.0, "-500", 1000, 2000, b'='), Ok(0));
}

#[test]
fn whole_numbers_are_read_as_in_c() {
    assert_eq!(c_strtol(b"12:34", 0), (12, 2));
    assert_eq!(c_strtol(b"12:34", 3), (34, 5));
    assert_eq!(c_strtol(b"  -7x", 0), (-7, 4));
    assert_eq!(c_strtol(b"+9", 0), (9, 2));
    assert_eq!(c_strtol(b" -x", 0), (0, 0));
    assert_eq!(c_strtol(b"", 0), (0, 0));
    assert_eq!(c_strtol(b"99999999999999999999", 0), (i64::MAX, 20));
    assert_eq!(c_strtol(b"-99999999999999999999", 0), (i64::MIN, 21));
    assert_eq!(c_strtol(b"-9223372036854775808", 0), (i64::MIN, 20));
}

fn read(text: &str) -> Option<(f64, usize)> {
    c_strtod(text.as_bytes(), 0).map(|(v, end)| (f64::from_bits(v.bits), end))
}

#[test]
fn decimals_are_read_as_in_c() {
    assert_eq!(read("1.5e3s"), Some((1500.0, 5)));
    assert_eq!(read(".25"), Some((0.25, 3)));
    assert_eq!(read("7."), Some((7.0, 2)));
    assert_eq!(read("4e"), Some((4.0, 1)));
    assert_eq!(read("4e+x"), Some((4.0, 1)));
    assert_eq!(read("  -.5E-1"), Some((-0.05, 8)));
    assert_eq!(read("+3e+2"), Some((300.0, 5)));
    assert_eq!(read("."), None);
    assert_eq!(read("x"), None);
    assert_eq!(read("e5"), None);
}

#[test]
fn decimals_are_nearest() {
    let long = format!("{}.{}", "9".repeat(400), "1".repeat(400));
    let small = format!("0.{}1", "0".repeat(330));
    let mut texts: Vec<String> = [
        "0",
        "-0",
        "0.1",
        "0.3",
        "123456789012345678901234567890",
        "9007199254740993",
        "9007199254740992.9999999999999999999999",
        "1.7976931348623157e308",
        "1.7976931348623159e308",
        "4.9406564584124654e-324",
        "2.4703282292062327e-324",
        "2.4703282292062328e-324",
        "2.2250738585072011e-308",
        "1e400",
        "1e-400",
        "0e99999999999999999999999999999999999999999999",
        "5e99999999999999999999999999999999999999999999",
        "5e-99999999999999999999999999999999999999999999",
        "1e23",
        "8.5e-5",
    ]
    .iter()
    .map(|t| t.to_string())
    .collect();
    texts.push(long);
    texts.push(small);
    let mut s: u64 = 31337;
    for _ in 0..60 {
        s ^= s << 13;
        s ^= s >> 7;
        s ^= s << 17;
        texts.push(format!("{}.{:06}e{}", s % 1000003, s >> 40, (s >> 20) % 600));
        texts.push(format!("{}e-{}", s, (s >> 20) % 340));
    }
    for text in &texts {
        let want: f64 = text.parse().unwrap();
        let (got, end) = read(text).unwrap();
        assert_eq!((got.to_bits(), end), (want.to_bits(), text.len()), "{text}");
    }
}
