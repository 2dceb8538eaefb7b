//! Pictures, against a plain drawing of the same.
use std::f64::consts::PI;
use std::io::{Cursor, Write};

use rustspeck::axis::{axis, plan, prefix, try_arguments, AxisValues};
use rustspeck::codec::{encode_png, inflate_font};
use rustspeck::config::Config;
use rustspeck::double::Double;
use rustspeck::image::{glyph_index, Image, FONT_LEN};
use rustspeck::general::fmt_g;
use rustspeck::gradient::{Palette, GRADIENTS_BYTES};
use rustspeck::legend::{x_extent, y_extent};
use rustspeck::palette::{colour, make_palette, tones, Tables, Tone};
use rustspeck::render::{
    channel_image, render_png, render_rgba, scale_image, to_rgba, try_render_png, try_render_rgba,
};
use rustspeck::spectrogram::Spectrogram;
use rustspeck::text::{first_char, pad_left, strip_trailing};

fn d(x: f64) -> Double {
    Double { bits: x.to_bits() }
}

fn f(x: Double) -> f64 {
    f64::from_bits(x.bits)
}

fn alt() -> Vec<u8> {
    (0..504u32).map(|i| (i * 37 % 251) as u8).collect()
}

fn gradients() -> Vec<u8> {
    (0..GRADIENTS_BYTES as u32).map(|i| (i * 101 % 241) as u8).collect()
}

fn tables() -> Tables {
    Tables { alt: alt(), gradients: gradients() }
}

fn font() -> Vec<u8> {
    (0..FONT_LEN as u32).map(|i| (i.wrapping_mul(2654435761) >> 13) as u8).collect()
}

fn deflated(data: &[u8]) -> Vec<u8> {
    let mut e = flate2::write::ZlibEncoder::new(Vec::new(), flate2::Compression::default());
    e.write_all(data).unwrap();
    e.finish().unwrap()
}

fn waves(cfg: &Config) -> Vec<Double> {
    tones(cfg, &tables())
        .iter()
        .map(|t| match t {
            Tone::Level(_) => d(0.0),
            Tone::Sine(a) | Tone::HalfSine(a) => d(f(*a).sin()),
            Tone::Cosine(a) => d(f(*a).cos()),
        })
        .collect()
}

fn values(to: Double, max_steps: i32) -> AxisValues {
    let logs = try_arguments(to, max_steps).map(|a| d(f(a).log10()));
    let p = plan(&logs);
    let ten = d(10f64.powf(p.power.map_or(0.0, f)));
    let scale = d(10f64.powf(f(p.scale_exponent())));
    AxisValues { logs, ten, scale }
}

/// The colour of a level in plain doubles.
fn plain_colour(cfg: &Config, x: f64) -> u8 {
    let sp = cfg.spectrum_points;
    let c: i32 = if x < -(cfg.db_range as f64) {
        0
    } else if x >= 0.0 {
        sp - 1
    } else {
        (1.0 + (1.0 + x / cfg.db_range as f64) * (sp - 2) as f64) as i32
    };
    (4 + c) as u8
}

fn plain_axis(to_in: f64, max_steps: i32) -> (i32, f64, String) {
    let mut to = to_in;
    let mut scale = 1.0f64;
    let mut step = (1.0f64).max(10.0 * to);
    let mut thousands = 0i32;
    if max_steps != 0 {
        let mut log_10 = f64::INFINITY;
        to *= 10.0;
        let min_step = to / max_steps as f64;
        for i in [5, 2, 1] {
            let t = (min_step * i as f64).log10().ceil();
            if t <= log_10 {
                log_10 = t;
                step = 10f64.powf(log_10) / i as f64;
                log_10 -= if i > 1 { 1.0 } else { 0.0 };
            }
        }
        thousands = (log_10 / 3.0).floor() as i32;
        scale = 10f64.powf(-3.0 * thousands as f64);
    }
    let letters = ["p", "n", "u", "m", "", "k", "M", "G", "T", "P", "E"];
    let name = if (-4..=6).contains(&thousands) { letters[(thousands + 4) as usize] } else { "" };
    ((step * scale + 0.5) as i32, to * scale, name.to_string())
}

fn plain_palette(cfg: &Config) -> Vec<u8> {
    let alt = alt();
    let sp = cfg.spectrum_points;
    let mut pal = vec![0u8; ((4 + sp) * 3) as usize];
    let fixed: [[u8; 3]; 4] = if cfg.light_background {
        let first = if cfg.monochrome { [0xdf; 3] } else { [0xdd, 0xd8, 0xd0] };
        [first, [0; 3], [0x3f; 3], [0x3f; 3]]
    } else {
        [[0; 3], [255; 3], [0xbf; 3], [0x7f; 3]]
    };
    for (i, c) in fixed.iter().enumerate() {
        pal[3 * i..3 * i + 3].copy_from_slice(c);
    }
    for i in 0..sp {
        let x = i as f64 / (sp - 1) as f64;
        let at = if cfg.light_background { sp - 1 - i } else { i };
        let o = ((4 + at) * 3) as usize;
        let mut c = [x; 3];
        let perm = cfg.perm;
        let mut order = [0usize, 1, 2];
        let late = if x < 0.4 { 0.0 } else { 5.0 / 3.0 * (x - 0.4) };
        if cfg.monochrome {
            if cfg.high_colour {
                c[((1 + perm) % 3) as usize] = late;
                if perm < 3 {
                    c[((2 + perm) % 3) as usize] = late;
                }
            }
        } else {
            order = [
                (perm % 3) as usize,
                ((1 + perm + (perm % 2)) % 3) as usize,
                ((2 + perm - (perm % 2)) % 3) as usize,
            ];
            if cfg.high_colour {
                let states =
                    [[4, 5, 0, 0, 2, 1, 1], [0, 0, 2, 1, 1, 3, 2], [4, 1, 1, 3, 0, 0, 2]];
                let phase = ((7.0 * x) as i32).min(6);
                let part = 7.0 * x - phase as f64;
                for j in 0..3 {
                    c[j] = match states[j][phase as usize] {
                        0 => 0.0,
                        1 => 1.0,
                        2 => (part * PI / 2.0).sin(),
                        3 => (part * PI / 2.0).cos(),
                        4 => part,
                        _ => 1.0 - part,
                    };
                }
            } else if cfg.alt_palette {
                let n = (i as f64 / (sp - 1) as f64 * 167.0 + 0.5) as usize;
                for j in 0..3 {
                    c[j] = alt[3 * n + j] as f64 / 255.0;
                }
            } else {
                c[0] = if x < 0.13 {
                    0.0
                } else if x < 0.73 {
                    ((x - 0.13) / 0.60 * PI / 2.0).sin()
                } else {
                    1.0
                };
                c[1] = if x < 0.60 {
                    0.0
                } else if x < 0.91 {
                    ((x - 0.60) / 0.31 * PI / 2.0).sin()
                } else {
                    1.0
                };
                c[2] = if x < 0.60 {
                    0.5 * ((x - 0.00) / 0.60 * PI).sin()
                } else if x < 0.78 {
                    0.0
                } else {
                    (x - 0.78) / 0.22
                };
            }
        }
        for j in 0..3 {
            pal[o + j] = (0.5 + 255.0 * c[order[j]]) as u8;
        }
    }
    pal
}

struct Plain {
    cols: i32,
    rows: i32,
    pixels: Vec<u8>,
    font: Vec<u8>,
}

impl Plain {
    fn set(&mut self, x: i32, y: i32, c: u8) {
        if x >= 0 && x < self.cols && y >= 0 && y < self.rows {
            self.pixels[(y * self.cols + x) as usize] = c;
        }
    }

    fn letters(&mut self, x: i32, y: i32, c: u8, text: &str, up: bool) {
        for (n, ch) in text.bytes().enumerate() {
            let g = if (b' '..=b'~').contains(&ch) { (ch - b' ') as usize } else { 95 };
            for i in 0..12 {
                for j in 0..5 {
                    if self.font[g * 12 + i] & (0x80 >> j) != 0 {
                        let (i, j, n) = (i as i32, j, 6 * n as i32);
                        if up {
                            self.set(x + i, y + n + j, c);
                        } else {
                            self.set(x + n + j, y - i, c);
                        }
                    }
                }
            }
        }
    }
}

/// `%g` of a tenth of `i`.
fn plain_g(i: i32) -> String {
    let v = 0.1 * i as f64;
    if v == 0.0 {
        return "0".to_string();
    }
    let s = format!("{:.5e}", v);
    let (m, e) = s.split_once('e').unwrap();
    let e: i32 = e.parse().unwrap();
    let strip = |t: &str| {
        if t.contains('.') {
            t.trim_end_matches('0').trim_end_matches('.').to_string()
        } else {
            t.to_string()
        }
    };
    if (-4..6).contains(&e) {
        strip(&format!("{:.*}", (5 - e) as usize, v))
    } else {
        format!("{}e{}{:02}", strip(m), if e < 0 { '-' } else { '+' }, e.abs())
    }
}

fn plain_draw(spec: &Spectrogram) -> Plain {
    let cfg = &spec.cfg;
    let chans = spec.chans as i32;
    let (p_rows, p_cols) = (spec.rows, spec.cols);
    let c_rows = p_rows * chans + chans - 1;
    let title = if cfg.title.is_some() { 20 } else { 0 };
    let rows = if cfg.raw { c_rows } else { 48 + c_rows + 30 + title };
    let cols = if cfg.raw { p_cols } else { 58 + p_cols + 37 + 14 + 35 };
    let (left, below) = if cfg.raw { (0, 0) } else { (58, 48) };
    let mut img = Plain { cols, rows, pixels: vec![0; (cols * rows) as usize], font: font() };
    let tick = if cfg.no_axes { 2 } else { 3 };
    let gain = if cfg.normalize { -f(spec.max) } else { 0.0 };
    for k in 0..chans {
        let base = below + (chans - 1 - k) * (p_rows + 1);
        for j in 0..p_rows {
            for i in 0..p_cols {
                let v = f32::from_bits(spec.dbfs[k as usize][(i * p_rows + j) as usize]);
                img.set(left + i, base + j, plain_colour(cfg, v as f64 + gain));
            }
            if !cfg.raw && !cfg.no_axes {
                img.set(57, base + j, 3);
                img.set(58 + p_cols, base + j, 3);
            }
        }
        if !cfg.raw && !cfg.no_axes {
            for i in -1..=p_cols {
                img.set(58 + i, base - 1, 3);
                img.set(58 + i, base + p_rows, 3);
            }
        }
    }
    if cfg.raw {
        return img;
    }
    if let Some(t) = &cfg.title {
        let i = t.len() as i32 * 6;
        if i < cols + 1 {
            img.letters((cols - i) / 2, rows - 12, 1, t, false);
        }
    }
    if (cfg.comment.len() as i32) * 6 < cols + 1 {
        img.letters(1, 12, 1, &cfg.comment, false);
    }
    let secs = p_cols as f64 * spec.step_size as f64 * spec.block_steps as f64 / f(spec.rate);
    let (step, limit, unit) = plain_axis(secs, p_cols / 27);
    let label = format!("Time ({unit}s)");
    img.letters(58 + (p_cols - 6 * label.len() as i32) / 2, 24, 1, &label, false);
    let mut i = 0;
    while i as f64 <= limit {
        let x =
            if limit != 0.0 { (i as f64 / limit * p_cols as f64 + 0.5) as i32 } else { 0 };
        for y in 0..tick {
            img.set(57 + x, 47 - y, 3);
            img.set(57 + x, 48 + c_rows + y, 3);
        }
        if !(step == 5 && i % 10 != 0) {
            let text = plain_g(i);
            let xx = 58 + x - 3 * text.len() as i32;
            img.letters(xx, 42, 2, &text, false);
            img.letters(xx, 48 + c_rows + 14, 2, &text, false);
        }
        i += step.max(1);
    }
    let (step, limit, unit) = plain_axis(f(spec.rate) / 2.0, (p_rows - 1) / 18);
    let label = format!("Frequency ({unit}Hz)");
    img.letters(10, 48 + (c_rows - 6 * label.len() as i32) / 2, 1, &label, true);
    for k in 0..chans {
        let base = 48 + k * (p_rows + 1);
        let mut i = 0;
        while i as f64 <= limit {
            let y = if limit != 0.0 {
                (i as f64 / limit * (p_rows - 1) as f64 + 0.5) as i32
            } else {
                0
            };
            for x in 0..tick {
                img.set(57 - x, base + y, 3);
                img.set(58 + p_cols + x, base + y, 3);
            }
            if !((step == 5 && i % 10 != 0) || (i == 0 && k != 0)) {
                let text = if i != 0 { plain_g(i) } else { "DC".to_string() };
                img.letters(24, base + y + 5, 2, &format!("{text:>5}"), false);
                img.letters(58 + p_cols + 6, base + y + 5, 2, &text, false);
            }
            i += step.max(1);
        }
    }
    let k = 400.min(c_rows);
    let base = 48 + (c_rows - k) / 2;
    img.letters(cols - 43, base - 13, 1, "dBFS", false);
    for j in 0..k {
        let b = plain_colour(cfg, cfg.db_range as f64 * (j as f64 / (k - 1) as f64 - 1.0));
        for i in 0..14 {
            img.set(cols - 36 - i, base + j, b);
        }
    }
    let step = 10 * (cfg.db_range as f64 / 10.0 * 14.0 / (k - 1) as f64).ceil() as i32;
    let mut i = 0;
    while i <= cfg.db_range {
        let y = (i as f64 / cfg.db_range as f64 * (k - 1) as f64 + 0.5) as i32;
        let val = i - cfg.gain - cfg.db_range - (gain + 0.5) as i32;
        img.letters(cols - 34, base + y + 5, 2, &format!("{val:+}"), false);
        i += step.max(1);
    }
    img
}

fn spectrogram(cfg: Config, chans: usize, rows: i32, cols: i32, rate: f64) -> Spectrogram {
    let mut s: u64 = 99;
    let dbfs = (0..chans)
        .map(|_| {
            (0..rows * cols)
                .map(|_| {
                    s ^= s << 13;
                    s ^= s >> 7;
                    s ^= s << 17;
                    (-((s % 15000) as f32) / 100.0).to_bits()
                })
                .collect()
        })
        .collect();
    Spectrogram {
        cfg,
        chans,
        rows,
        cols,
        step_size: 100,
        block_steps: 3,
        rate: d(rate),
        dbfs,
        max: d(-3.25),
    }
}

fn unpacked(file: &[u8]) -> (u32, u32, Vec<u8>, Vec<u8>) {
    let decoder = png::Decoder::new(Cursor::new(file));
    let mut reader = decoder.read_info().unwrap();
    let palette = reader.info().palette.clone().unwrap().to_vec();
    let mut pixels = vec![0; reader.output_buffer_size().unwrap()];
    let info = reader.next_frame(&mut pixels).unwrap();
    assert_eq!(info.color_type, png::ColorType::Indexed);
    assert_eq!(info.bit_depth, png::BitDepth::Eight);
    pixels.truncate(info.buffer_size());
    (info.width, info.height, palette, pixels)
}

fn check(spec: &Spectrogram) {
    let zlib = deflated(&font());
    let (xt, xn) = x_extent(spec);
    let (yt, yn) = y_extent(spec);
    let (x, y) = (values(xt, xn), values(yt, yn));
    let w = waves(&spec.cfg);
    let file = render_png(spec, &zlib, &tables(), &w, &x, &y).unwrap();
    let (width, height, palette, pixels) = unpacked(&file);
    let want = plain_draw(spec);
    assert_eq!((width as i32, height as i32), (want.cols, want.rows));
    assert_eq!(palette, plain_palette(&spec.cfg));
    for row in 0..want.rows {
        for col in 0..want.cols {
            let got = pixels[((want.rows - 1 - row) * want.cols + col) as usize];
            let wanted = want.pixels[(row * want.cols + col) as usize];
            assert_eq!(got, wanted, "pixel {col}, {row}");
        }
    }
    let image = render_rgba(spec, &zlib, &tables(), &w, &x, &y).unwrap();
    assert_eq!((image.cols, image.rows), (width, height));
    for (n, index) in pixels.iter().enumerate() {
        let at = 3 * *index as usize;
        assert_eq!(&image.bytes[4 * n..4 * n + 3], &palette[at..at + 3]);
        assert_eq!(image.bytes[4 * n + 3], 255);
    }
    let again = try_render_png(spec, &zlib, &tables(), &w, &x, &y).unwrap().unwrap();
    assert_eq!(again, file);
    let again = try_render_rgba(spec, &zlib, &tables(), &w, &x, &y).unwrap().unwrap();
    assert_eq!(again.bytes, image.bytes);
}

fn options() -> Config {
    Config::default().finalize().unwrap()
}

#[test]
fn a_picture_is_drawn() {
    check(&spectrogram(options(), 2, 65, 120, 44100.0));
    check(&spectrogram(options(), 1, 257, 90, 8000.0));
}

#[test]
fn a_picture_with_a_title_and_no_lines_is_drawn() {
    let mut c = Config::default();
    c.title = Some("Na\u{ef}ve \u{2603} title".to_string());
    c.no_axes = true;
    c.normalize = true;
    c.gain = 7;
    c.light_background = true;
    check(&spectrogram(c.finalize().unwrap(), 3, 33, 61, 192000.0));
}

#[test]
fn texts_that_do_not_fit_are_left_out() {
    let mut c = Config::default();
    c.title = Some("A title that is far too long for an image with as few columns".to_string());
    c.comment = "And a comment that is not any shorter than that title is".to_string();
    check(&spectrogram(c.finalize().unwrap(), 1, 33, 3, 11025.0));
}

#[test]
fn a_raw_picture_is_levels_alone() {
    let mut c = Config::default();
    c.raw = true;
    c.title = Some("unseen".to_string());
    check(&spectrogram(c.finalize().unwrap(), 2, 33, 40, 44100.0));
}

#[test]
fn tall_pictures_have_a_scale_of_four_hundred() {
    let mut c = Config::default();
    c.db_range = 37;
    check(&spectrogram(c.finalize().unwrap(), 2, 257, 30, 1000.0));
}

#[test]
fn every_palette_agrees() {
    for perm in 1..=6 {
        for bits in 0..16 {
            for colors in [0, 1, 5, 249] {
                let mut c = Config::default();
                c.perm = perm;
                c.monochrome = bits & 1 != 0;
                c.high_colour = bits & 2 != 0;
                c.alt_palette = bits & 4 != 0;
                c.light_background = bits & 8 != 0;
                c.spectrum_points = colors;
                let c = c.finalize().unwrap();
                assert_eq!(make_palette(&c, &tables(), &waves(&c)), plain_palette(&c));
            }
        }
    }
}

#[test]
fn gradients_are_looked_up() {
    let table = gradients();
    let all = [
        Palette::Viridis,
        Palette::Magma,
        Palette::Inferno,
        Palette::Plasma,
        Palette::Grayscale,
        Palette::Green,
        Palette::Amber,
    ];
    for (place, p) in all.iter().enumerate() {
        for light in [false, true] {
            let mut c = Config::default();
            c.palette = *p;
            c.light_background = light;
            let c = c.finalize().unwrap();
            let pal = make_palette(&c, &tables(), &waves(&c));
            let sp = c.spectrum_points as usize;
            for i in 0..sp {
                let n = (i as f64 / (sp - 1) as f64 * 255.0 + 0.5) as usize;
                let at = 3 * (4 + if light { sp - 1 - i } else { i });
                let from = 768 * place + 3 * n;
                assert_eq!(pal[at..at + 3], table[from..from + 3]);
            }
        }
    }
    // the first and the last colour of a gradient are the ends of the scale
    let mut c = Config::default();
    c.palette = Palette::Amber;
    let c = c.finalize().unwrap();
    let pal = make_palette(&c, &tables(), &waves(&c));
    assert_eq!(pal[12..15], table[768 * 6..768 * 6 + 3]);
    assert_eq!(pal[pal.len() - 3..], table[768 * 7 - 3..]);
    // other ways to colour a scale come first
    let mut c = Config::default();
    c.palette = Palette::Green;
    c.monochrome = true;
    let c = c.finalize().unwrap();
    assert_eq!(make_palette(&c, &tables(), &waves(&c)), plain_palette(&c));
}

#[test]
fn the_usual_colours_take_no_tables() {
    let none = Tables { alt: vec![], gradients: vec![] };
    let c = Config::default().finalize().unwrap();
    assert_eq!(make_palette(&c, &none, &waves(&c)), plain_palette(&c));
}

#[test]
fn every_level_has_its_colour() {
    let mut last = 0;
    let c = options();
    for i in -1300..200 {
        let x = i as f64 / 10.0;
        let got = colour(&c, d(x));
        assert_eq!(got, plain_colour(&c, x));
        assert!(got >= last);
        last = got;
    }
    assert_eq!(colour(&c, d(f64::NAN)), plain_colour(&c, f64::NAN));
    assert_eq!(colour(&c, d(f64::NEG_INFINITY)), 4);
}

#[test]
fn axes_agree() {
    for to in [0.0, 1e-9, 0.004, 0.5, 1.0, 7.25, 60.0, 4000.0, 22050.0, 96000.0, 3e6, 1e13] {
        for n in [0, 1, 3, 14, 29, 200] {
            let v = values(d(to), n);
            let a = axis(d(to), n, &v);
            let (step, limit, unit) = plain_axis(to, n);
            assert_eq!((a.step, a.prefix), (step, unit));
            assert!(f(a.limit).to_bits() == limit.to_bits() || (limit.is_nan() && f(a.limit).is_nan()));
        }
    }
}

#[test]
fn prefixes_have_a_letter_or_none() {
    assert_eq!(prefix(0), "");
    assert_eq!(prefix(1), "k");
    assert_eq!(prefix(-1), "m");
    assert_eq!(prefix(-4), "p");
    assert_eq!(prefix(6), "E");
    assert_eq!(prefix(7), "");
    assert_eq!(prefix(-5), "");
    assert_eq!(prefix(i32::MAX), "");
}

#[test]
fn tick_labels_are_written_as_in_c() {
    for i in (0..30000).chain([100000, 999999, 1000000, 9999994, 9999995, 10000000, i32::MAX]) {
        assert_eq!(fmt_g(d(0.1 * i as f64), 6), plain_g(i), "{i}");
    }
    assert_eq!(fmt_g(d(0.1 * 5.0), 6), "0.5");
    assert_eq!(fmt_g(d(0.1 * 9999995.0), 6), "1e+06");
}

#[test]
fn numbers_are_written_in_their_shortest_form() {
    assert_eq!(fmt_g(d(0.0), 6), "0");
    assert_eq!(fmt_g(d(-0.0), 6), "-0");
    assert_eq!(fmt_g(d(100.0), 6), "100");
    assert_eq!(fmt_g(d(0.1 * 3.0), 6), "0.3");
    assert_eq!(fmt_g(d(0.00025), 6), "0.00025");
    assert_eq!(fmt_g(d(0.000025), 6), "2.5e-05");
    assert_eq!(fmt_g(d(1234567.0), 6), "1.23457e+06");
    assert_eq!(fmt_g(d(-1.5), 6), "-1.5");
    assert_eq!(fmt_g(d(-0.00009999996), 6), "-0.0001");
    assert_eq!(fmt_g(d(2.5), 1), "2");
    assert_eq!(fmt_g(d(3.5), 1), "4");
    assert_eq!(fmt_g(d(9.5), 1), "1e+01");
    assert_eq!(fmt_g(d(9.5), 0), "1e+01");
    assert_eq!(fmt_g(d(0.1), 17), "0.10000000000000001");
    assert_eq!(fmt_g(d(0.5), 40), "0.5");
    assert_eq!(fmt_g(d(123456789.0), 20), "123456789");
    assert_eq!(fmt_g(d(f64::MAX), 6), "1.79769e+308");
    assert_eq!(fmt_g(d(5e-324), 6), "4.94066e-324");
    assert_eq!(fmt_g(d(1e100), 3), "1e+100");
    assert_eq!(fmt_g(d(999999.5), 6), "1e+06");
    assert_eq!(fmt_g(d(f64::INFINITY), 6), "inf");
    assert_eq!(fmt_g(d(f64::NEG_INFINITY), 6), "-inf");
    assert_eq!(fmt_g(d(f64::NAN), 6), "nan");
    let mut x = 1.7e-300f64;
    while x < 1e300 {
        // the digits of a number in exponent form, rounded by the machine
        let s = format!("{x:.8e}");
        let (m, e) = s.split_once('e').unwrap();
        let e: i32 = e.parse().unwrap();
        if !(-4..9).contains(&e) {
            let sign = if e < 0 { '-' } else { '+' };
            let want = format!("{}e{sign}{:02}", strip_trailing(m), e.abs());
            assert_eq!(fmt_g(d(x), 9), want);
        } else {
            assert_eq!(fmt_g(d(x), 9), strip_trailing(&format!("{x:.*}", (8 - e) as usize)));
        }
        x *= 37.123;
    }
}

#[test]
fn letters_are_set() {
    let mut letters = vec![0u8; FONT_LEN];
    letters[12 * ('A' as usize - 32)] = 0b1000_1000;
    letters[12 * ('A' as usize - 32) + 11] = 0b0100_0111;
    let mut bare = Image::blank(2, 2, 7, vec![]);
    bare.set(1, 0, 3);
    assert_eq!(bare.pixels, vec![7, 3, 7, 7]);
    let mut img = Image::blank(8, 14, 0, letters);
    img.print_at(0, 12, 5, "A");
    let lit: Vec<(usize, usize)> =
        (0..14).flat_map(|y| (0..8).map(move |x| (x, y))).filter(|(x, y)| img.pixels[y * 8 + x] == 5).collect();
    assert_eq!(lit, vec![(1, 1), (0, 12), (4, 12)]);
    img.set(7, 13, 9);
    img.set(8, 13, 9);
    img.set(-1, 0, 9);
    assert_eq!(img.pixels.iter().filter(|p| **p == 9).count(), 1);
    let mut up = Image::blank(14, 8, 0, img.font);
    up.print_up(1, 0, 5, "A");
    assert_eq!(up.pixels[1], 5);
    assert_eq!(up.pixels[4 * 14 + 1], 5);
    assert_eq!(up.pixels[1 * 14 + 12], 5);
}

#[test]
fn glyphs_begin_at_the_space() {
    assert_eq!(glyph_index(b' '), 0);
    assert_eq!(glyph_index(b'~'), 94);
    assert_eq!(glyph_index(127), 95);
    assert_eq!(glyph_index(10), 95);
    assert_eq!(glyph_index(200), 95);
}

#[test]
fn small_texts() {
    assert_eq!(strip_trailing("1.500"), "1.5");
    assert_eq!(strip_trailing("2.000"), "2");
    assert_eq!(strip_trailing("200"), "200");
    assert_eq!(pad_left("12", 5), "   12");
    assert_eq!(pad_left("123456", 5), "123456");
    assert_eq!(first_char("kilo"), "k");
    assert_eq!(first_char(""), "");
}

#[test]
fn a_font_that_does_not_inflate_is_refused() {
    let e = inflate_font(b"not zlib").unwrap_err();
    assert!(e.starts_with("font inflate error: "));
    assert_eq!(inflate_font(&deflated(b"abc")).unwrap(), b"abc");
    let s = spectrogram(options(), 1, 33, 20, 8000.0);
    let (xt, xn) = x_extent(&s);
    let (yt, yn) = y_extent(&s);
    let (x, y) = (values(xt, xn), values(yt, yn));
    let w = waves(&s.cfg);
    let e = render_png(&s, b"not zlib", &tables(), &w, &x, &y).unwrap_err();
    assert!(e.starts_with("font inflate error: "));
    assert!(try_render_png(&s, &deflated(b"abc"), &tables(), &w, &x, &y).is_none());
    assert!(try_render_rgba(&s, &deflated(b"abc"), &tables(), &w, &x, &y).is_none());
}

#[test]
fn an_image_without_pixels_is_refused() {
    let e = encode_png(0, 3, vec![0; 3], &[]).unwrap_err();
    assert_eq!(e, "PNG header error: Zero width not allowed");
    let e = encode_png(3, 0, vec![0; 3], &[]).unwrap_err();
    assert_eq!(e, "PNG header error: Zero height not allowed");
    let mut c = Config::default();
    c.raw = true;
    let s = spectrogram(c.finalize().unwrap(), 1, 33, 0, 8000.0);
    let (xt, xn) = x_extent(&s);
    let (yt, yn) = y_extent(&s);
    let e = render_png(
        &s,
        &deflated(&font()),
        &tables(),
        &waves(&s.cfg),
        &values(xt, xn),
        &values(yt, yn),
    );
    assert_eq!(e.unwrap_err(), "PNG header error: Zero width not allowed");
}

#[test]
fn a_png_file_holds_its_pixels() {
    let pixels = [0, 1, 2, 1, 0, 2];
    let palette = vec![1, 2, 3, 4, 5, 6, 7, 8, 9];
    let file = encode_png(3, 2, palette.clone(), &pixels).unwrap();
    assert_eq!(unpacked(&file), (3, 2, palette.clone(), pixels.to_vec()));
    assert_eq!(to_rgba(&palette, &[2, 0]), vec![7, 8, 9, 255, 1, 2, 3, 255]);
}

#[test]
fn a_channel_fills_up_from_the_left() {
    let c = options();
    let palette = make_palette(&c, &tables(), &waves(&c));
    let dbfs: Vec<u32> = [-10.0f32, -50.0, 0.0, -200.0].iter().map(|v| v.to_bits()).collect();
    let image = channel_image(&c, &dbfs, 3, 2, &palette);
    let at = |index: u8| {
        let o = 3 * index as usize;
        [palette[o + 2], palette[o + 1], palette[o], 255]
    };
    let want: Vec<u8> = [
        plain_colour(&c, -50.0),
        plain_colour(&c, -200.0),
        0,
        plain_colour(&c, -10.0),
        plain_colour(&c, 0.0),
        0,
    ]
    .iter()
    .flat_map(|i| at(*i))
    .collect();
    assert_eq!(image, want);
    let scale = scale_image(&c, 5, &palette);
    for n in 0..5 {
        let level = 120.0 * ((4 - n) as f64 / 4.0 - 1.0);
        assert_eq!(scale[4 * n..4 * n + 4], at(plain_colour(&c, level)));
    }
}
