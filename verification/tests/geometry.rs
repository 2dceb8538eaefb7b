//! Options and how an input is laid out.
use rustspeck::channel::Geometry;
use rustspeck::cli::{build_config, mode, written, Mode, Options};
use rustspeck::config::{Config, ALT_PALETTE_LEN};
use rustspeck::double::Double;
use rustspeck::geometry::{compute_geometry, dft_size, solve_scale, window_step};
use rustspeck::gradient::Palette;
use rustspeck::taper::{attenuation, Values};
use rustspeck::window::WindowType;

fn d(x: f64) -> Double {
    Double { bits: x.to_bits() }
}

fn f(x: Double) -> f64 {
    f64::from_bits(x.bits)
}

/// Values with which every point of a Hann window is `weight`.
fn flat(points: i32, weight: f64) -> Values {
    Values {
        cosines: vec![d(1.0 - 2.0 * weight); points as usize],
        octaves: d(0.0),
        power: d(0.0),
        b0: d(0.0),
    }
}

fn lay_out(cfg: &Config, rate: f64, channels: u32, len: u64, weight: f64) -> Geometry {
    let values = flat(dft_size(cfg, channels) + 1, weight);
    compute_geometry(cfg, d(rate), channels, len, &values).unwrap()
}

fn bare() -> Options {
    Options {
        input: true,
        gui: false,
        output: None,
        width: None,
        pixels_per_sec: None,
        duration: None,
        start: None,
        height: None,
        fft_size: None,
        total_height: None,
        db_range: None,
        db_max: None,
        normalize: false,
        colors: None,
        window: WindowType::Hann,
        window_adjust: None,
        slack_overlap: false,
        light_background: false,
        monochrome: false,
        high_colour: false,
        permute: None,
        alt_palette: false,
        palette: None,
        no_axis_lines: false,
        raw: false,
        truncate: false,
        title: None,
        comment: None,
    }
}

#[test]
fn the_defaults_mirror_the_command_line() {
    let a = Config::default().finalize().unwrap();
    let b = build_config(&bare()).unwrap();
    assert_eq!(format!("{a:?}"), format!("{b:?}"));
    assert_eq!(a.db_range, 120);
    assert_eq!(a.spectrum_points, 251);
    assert_eq!(a.perm, 0);
    assert_eq!(a.comment, "Created by RustSpeck");
    assert_eq!(a.out_name, "spectrogram.png");
}

#[test]
fn palettes_are_asked_for_by_name() {
    let names = ["sox", "viridis", "magma", "inferno", "plasma", "grayscale", "green", "amber"];
    let mut places = Vec::new();
    for name in names {
        let mut o = bare();
        o.palette = Some(name.to_string());
        let c = build_config(&o).unwrap();
        assert_eq!(c.palette.name(), name);
        places.push(c.palette.index());
    }
    assert_eq!(places, vec![0, 1, 2, 3, 4, 5, 6, 7]);
    assert!(build_config(&bare()).unwrap().palette == Palette::Sox);
    for name in ["", "Sox", "greenish", "jet"] {
        let mut o = bare();
        o.palette = Some(name.to_string());
        assert_eq!(
            build_config(&o).unwrap_err(),
            "no such palette (sox, viridis, magma, inferno, plasma, grayscale, green, amber)"
        );
    }
}

#[test]
fn a_clone_is_the_same() {
    let mut c = Config::default();
    c.title = Some("A title".to_string());
    c.db_range = 77;
    assert_eq!(format!("{:?}", c.clone()), format!("{c:?}"));
}

#[test]
fn final_options_are_normalised() {
    let mut c = Config::default();
    c.gain = 5;
    c.perm = 3;
    c.spectrum_points = 200;
    c.alt_palette = true;
    let c = c.finalize().unwrap();
    assert_eq!((c.gain, c.perm, c.spectrum_points), (-5, 2, ALT_PALETTE_LEN));
}

#[test]
fn options_that_exclude_each_other_are_refused() {
    let mut c = Config::default();
    c.x_size0 = 100;
    c.pixels_per_sec = d(10.0);
    c.duration_str = Some("1".to_string());
    assert_eq!(
        c.finalize().unwrap_err(),
        "only two of width (-x), pixels/sec (-X), duration (-d) may be given"
    );
    let mut c = Config::default();
    c.y_size = 100;
    c.big_y_size = 200;
    assert_eq!(
        c.finalize().unwrap_err(),
        "only one of height (-y), total-height (-Y) may be given"
    );
}

#[test]
fn numbers_out_of_their_bounds_are_refused() {
    for v in [0.5, 5000.1, f64::NAN, f64::INFINITY] {
        let mut o = bare();
        o.pixels_per_sec = Some(d(v));
        assert_eq!(
            build_config(&o).unwrap_err(),
            "pixels-per-sec (-X) must be between 1 and 5000"
        );
    }
    for v in [-10.5, 11.0, f64::NAN] {
        let mut o = bare();
        o.window_adjust = Some(d(v));
        assert_eq!(
            build_config(&o).unwrap_err(),
            "window-adjust (-W) must be between -10 and 10"
        );
    }
    let mut o = bare();
    o.pixels_per_sec = Some(d(5000.0));
    o.window_adjust = Some(d(-10.0));
    assert!(build_config(&o).is_ok());
}

#[test]
fn options_reach_the_configuration() {
    let mut o = bare();
    o.output = Some("x.png".to_string());
    o.width = Some(400);
    o.fft_size = Some(4096);
    o.db_range = Some(90);
    o.db_max = Some(-3);
    o.colors = Some(100);
    o.permute = Some(4);
    o.window = WindowType::Kaiser;
    o.title = Some("T".to_string());
    o.comment = Some("C".to_string());
    o.start = Some("0:30".to_string());
    o.duration = Some("10".to_string());
    o.raw = true;
    let c = build_config(&o).unwrap();
    assert_eq!(c.out_name, "x.png");
    assert_eq!((c.x_size0, c.y_size, c.db_range, c.gain), (400, 2049, 90, 3));
    assert_eq!((c.spectrum_points, c.perm), (102, 3));
    assert!(c.win_type == WindowType::Kaiser);
    assert_eq!(c.title.as_deref(), Some("T"));
    assert_eq!(c.comment, "C");
    assert_eq!(c.start_time_str.as_deref(), Some("0:30"));
    assert_eq!(c.duration_str.as_deref(), Some("10"));
    assert!(c.raw && !c.monochrome);
    assert_eq!(dft_size(&c, 2), 4096);
}

#[test]
fn the_viewer_opens_unless_an_image_is_asked_for() {
    let mut o = bare();
    assert!(mode(&o) == Mode::View);
    o.output = Some("x.png".to_string());
    assert!(mode(&o) == Mode::Render);
    o.gui = true;
    assert!(mode(&o) == Mode::View);
    o.gui = false;
    o.input = false;
    assert!(mode(&o) == Mode::View);
}

#[test]
fn what_was_written_is_said() {
    assert_eq!(written("a.png", 1), "wrote a.png (1 channel)");
    assert_eq!(written("a.png", 6), "wrote a.png (6 channels)");
}

fn scale(mut x_size: i32, mut pps: f64, mut duration: f64) -> (i32, f64) {
    loop {
        if pps == 0.0 && x_size != 0 && duration != 0.0 {
            pps = (5000.0f64).min(x_size as f64 / duration);
        } else if x_size == 0 && pps != 0.0 && duration != 0.0 {
            x_size = (200000f64).min((pps * duration + 0.5).floor()) as i32;
        }
        if duration == 0.0 {
            duration = 1.0;
            continue;
        } else if x_size == 0 {
            x_size = 800;
            continue;
        } else if pps == 0.0 {
            pps = 100.0;
            continue;
        }
        return (x_size, pps);
    }
}

#[test]
fn the_scale_is_solved_as_by_the_loop() {
    for x in [0, 100, 800, 200000] {
        for p in [0.0, 1.0, 33.3, 100.0, 5000.0] {
            for t in [0.004, 0.5, 1.0, 12.34, 3600.0, 1e6] {
                let s = solve_scale(x, d(p), d(t));
                let (a, b) = scale(x, p, t);
                assert_eq!((s.x_size, f(s.pixels_per_sec).to_bits()), (a, b.to_bits()));
            }
        }
    }
}

#[test]
fn the_transform_has_the_rows_that_fit() {
    let c = Config::default();
    assert_eq!(dft_size(&c, 1), 1024);
    assert_eq!(dft_size(&c, 2), 512);
    assert_eq!(dft_size(&c, 6), 128);
    let mut c = Config::default();
    c.big_y_size = 2000;
    assert_eq!(dft_size(&c, 1), 2048);
    c.big_y_size = -2000;
    assert_eq!(dft_size(&c, 3), 128);
    c.big_y_size = i32::MAX;
    assert_eq!(dft_size(&c, 2), 0x4000_0000);
    c.big_y_size = 0;
    c.y_size = 129;
    assert_eq!(dft_size(&c, 7), 256);
}

#[test]
fn the_steps_agree_with_doubles() {
    let mut c = Config::default();
    c.y_size = 2049;
    let mut s: u64 = 77;
    for _ in 0..300 {
        s ^= s << 13;
        s ^= s >> 7;
        s ^= s << 17;
        let rate = (s % 400000 + 1) as f64 / 3.0;
        c.pixels_per_sec = d((s >> 20) as f64 % 4999.0 + 1.0);
        let weight = ((s >> 33) % 4095 + 1) as f64 / 4096.0;
        c.slack_overlap = s % 3 == 0;
        let g = lay_out(&c, rate, 1, 1000000, weight);
        let mut density = 0.0;
        for _ in 0..4096 {
            density += 0.5 - 0.5 * (1.0 - 2.0 * weight);
        }
        if c.slack_overlap {
            density = (density * 4096.0).sqrt();
        }
        let step = (density + 0.5) as i32;
        assert_eq!(window_step(&c, 4096, &flat(4097, weight)), step);
        let block = (rate / f(c.pixels_per_sec)).max(1.0) as i32;
        let step = (block as f64 / (block as f64 / step as f64).ceil() + 0.5) as i32;
        let block = (block as f64 / step as f64 + 0.5).floor() as i32;
        assert_eq!((g.step_size, g.block_steps), (step, block));
        assert_eq!((g.dft_size, g.rows), (4096, 2049));
    }
}

#[test]
fn an_input_is_laid_out() {
    let c = Config::default();
    // ten seconds on 800 columns
    let g = lay_out(&c, 44100.0, 2, 882000, 0.499);
    assert_eq!((g.dft_size, g.rows, g.x_size, g.skip), (512, 257, 800, 0));
    assert_eq!((g.step_size, g.block_steps), (184, 3));
    let mut c = Config::default();
    c.start_time_str = Some("0:01".to_string());
    c.duration_str = Some("5+0.5".to_string());
    let g = compute_geometry(&c, d(1000.0), 1, 10000, &flat(1025, 0.5)).unwrap();
    assert_eq!((g.skip, g.x_size), (1000, 800));
}

#[test]
fn a_window_may_reach_beyond_its_frame() {
    let mut o = bare();
    o.window = WindowType::Dolph;
    o.db_range = Some(20);
    o.db_max = Some(20);
    let c = build_config(&o).unwrap();
    let att = f(attenuation(&c));
    assert_eq!(att, 6.0);
    let b0 = (10f64.powf(att / 20.0).acosh() / 512.0).cosh();
    let values = Values { cosines: vec![], octaves: d(0.0), power: d(0.0), b0: d(b0) };
    assert_eq!(dft_size(&c, 2), 512);
    assert!(window_step(&c, 512, &values) > 512);
    // five seconds on 800 columns: no step is longer than a column
    let g = compute_geometry(&c, d(44100.0), 2, 441000, &values).unwrap();
    assert_eq!((g.step_size, g.block_steps, g.x_size), (275, 1, 800));
}

#[test]
fn a_time_that_cannot_be_read_is_refused() {
    let mut c = Config::default();
    c.duration_str = Some("x".to_string());
    let e = compute_geometry(&c, d(1000.0), 1, 10, &flat(1025, 0.5)).unwrap_err();
    assert_eq!(e, "empty number");
    c.duration_str = None;
    c.start_time_str = Some("1e3".to_string());
    let e = compute_geometry(&c, d(1000.0), 1, 10, &flat(1025, 0.5)).unwrap_err();
    assert_eq!(e, "exponent not allowed in a time value");
}
