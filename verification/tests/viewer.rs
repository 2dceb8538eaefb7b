//! The viewer: its state, its axes and its texts.
use rustspeck::config::Config;
use rustspeck::course::{Course, Event, Word};
use rustspeck::double::Double;
use rustspeck::geometry::dft_size;
use rustspeck::gradient::{named_palette, next_palette, Palette};
use rustspeck::labels::{fmt_freq, fmt_time};
use rustspeck::loader::{ChunkStep, EndStep, Loader};
use rustspeck::spectrogram::Spectrogram;
use rustspeck::ticks::{
    band_places, centre_area, channel_height, freq_axis_labels, freq_target, legend_labels, nice_step,
    rough_step, time_axis_labels, time_target, Align, TickLabel,
};
use rustspeck::track::{failure, file_type_name, track_info, FileKind, Track};
use rustspeck::viewer::{
    batch_size, fft_down, fft_up, gui_config, publishes, Analysis, Key, KeyPress, LoadMsg,
    SpecMeta, TrackInfo, Viewer,
};
use rustspeck::window::WindowType;

fn d(x: f64) -> Double {
    Double { bits: x.to_bits() }
}

fn f(x: Double) -> f64 {
    f64::from_bits(x.bits)
}

fn meta() -> SpecMeta {
    SpecMeta {
        rate: d(44100.0),
        channels: 2,
        cols: 2400,
        step_size: 147,
        block_steps: 5,
        db_range: 120,
        dft_size: 1024,
    }
}

fn press(key: Key, shift: bool) -> KeyPress {
    KeyPress { key, shift, ignored: false }
}

fn analysis(fft_size: Option<i32>, win_type: WindowType, palette: Palette) -> Analysis {
    Analysis { fft_size, win_type, palette }
}

#[test]
fn palettes_come_round() {
    let mut p = Palette::Sox;
    let mut seen = Vec::new();
    for _ in 0..8 {
        seen.push(p.name());
        assert!(named_palette(p.name()) == Some(p));
        p = next_palette(p);
    }
    assert!(p == Palette::Sox);
    assert_eq!(
        seen,
        ["sox", "viridis", "magma", "inferno", "plasma", "grayscale", "green", "amber"]
    );
    assert!(named_palette("Viridis").is_none() && named_palette("").is_none());
    let mut v: Viewer<u8> = Viewer::new(None);
    v.load();
    for i in 1..=8 {
        let load = v.cycle_palette().unwrap();
        assert_eq!(load.analysis.palette.index(), i % 8);
    }
    assert!(v.key(KeyPress { key: Key::C, shift: false, ignored: true }).is_none());
}

fn told(events: &[Event]) -> Vec<Word> {
    let mut course = Course::new();
    events.iter().filter_map(|e| course.on(*e)).collect()
}

#[test]
fn a_load_speaks_in_order() {
    let known = Event::Opened { progressive: true };
    let unknown = Event::Opened { progressive: false };
    assert_eq!(
        told(&[Event::Begun, known, Event::Columns, Event::Columns, Event::Finished]),
        [Word::Start, Word::Meta, Word::Frame, Word::Frame, Word::Done]
    );
    assert_eq!(
        told(&[Event::Begun, unknown, Event::Columns, Event::Whole, Event::Finished]),
        [Word::Start, Word::Meta, Word::Done]
    );
    assert_eq!(
        told(&[Event::Begun, Event::Failed, known, Event::Finished]),
        [Word::Start, Word::Failed]
    );
    assert_eq!(
        told(&[Event::Begun, known, Event::Superseded, Event::Columns, Event::Finished]),
        [Word::Start, Word::Meta]
    );
    assert_eq!(
        told(&[Event::Begun, known, Event::Finished, Event::Failed, Event::Columns]),
        [Word::Start, Word::Meta, Word::Done]
    );
    assert_eq!(told(&[Event::Finished, Event::Failed]), []);
}

#[test]
fn transform_sizes_step_up_and_down() {
    let sizes = [128, 256, 512, 1024, 2048, 4096, 8192, 16384];
    for i in 0..8 {
        assert_eq!(fft_up(sizes[i]), sizes[(i + 1) % 8]);
        assert_eq!(fft_down(sizes[i]), sizes[(i + 7) % 8]);
        assert_eq!(fft_down(fft_up(sizes[i])), sizes[i]);
    }
    assert_eq!(fft_up(1000), 1024);
    assert_eq!(fft_down(1000), 512);
    assert_eq!(fft_up(1), 128);
    assert_eq!(fft_down(1), 16384);
    assert_eq!(fft_up(99999), 128);
}

#[test]
fn keys_do_nothing_without_a_track() {
    let mut v: Viewer<u8> = Viewer::new(None);
    assert_eq!(v.status(), "Drag and drop an audio file.");
    assert!(v.key(press(Key::F, false)).is_none());
    assert!(v.key(press(Key::W, false)).is_none());
    assert!(v.key(press(Key::C, false)).is_none());
    assert_eq!(v.current_fft(), 1024);
    assert!(v.meta().is_none() && v.images().is_empty());
    assert_eq!(v.info().line1, "");
}

#[test]
fn keys_analyse_the_track_anew() {
    let mut v: Viewer<u8> = Viewer::new(None);
    let first = v.load();
    assert!(first.analysis.fft_size.is_none());
    assert!(v.is_current(first.generation));
    let info = TrackInfo { line1: "a".to_string(), line2: "b".to_string() };
    assert!(v.handle(first.generation, LoadMsg::Meta(meta(), info)));
    assert_eq!(v.info().line2, "b");
    assert_eq!(v.current_fft(), 1024);
    let second = v.key(press(Key::F, false)).unwrap();
    assert_eq!(second.analysis.fft_size, Some(2048));
    assert!(!v.is_current(first.generation) && v.is_current(second.generation));
    let third = v.key(press(Key::F, true)).unwrap();
    assert_eq!(third.analysis.fft_size, Some(1024));
    let fourth = v.key(press(Key::W, false)).unwrap();
    assert!(fourth.analysis.win_type == WindowType::Hamming);
    assert!(fourth.analysis.palette == Palette::Sox);
    let fifth = v.key(press(Key::C, false)).unwrap();
    assert!(fifth.analysis.palette == Palette::Viridis);
    assert!(fifth.analysis.win_type == WindowType::Hamming);
    assert_eq!(fifth.analysis.fft_size, Some(1024));
    assert!(v.is_current(fifth.generation) && !v.is_current(fourth.generation));
    assert!(v.key(press(Key::Other, false)).is_none());
    assert!(v.key(KeyPress { key: Key::F, shift: false, ignored: true }).is_none());
}

#[test]
fn a_superseded_load_is_not_heeded() {
    let mut v: Viewer<u8> = Viewer::new(Some(512));
    assert_eq!(v.current_fft(), 512);
    let old = v.load();
    let new = v.load();
    assert!(!v.handle(old.generation, LoadMsg::Frame(vec![1])));
    assert!(v.images().is_empty());
    assert!(v.handle(new.generation, LoadMsg::Start("x.flac".to_string())));
    assert_eq!(v.status(), "Loading x.flac\u{2026}");
    assert!(v.handle(new.generation, LoadMsg::Frame(vec![1, 2])));
    assert_eq!(v.images(), &vec![1, 2]);
    assert!(v.handle(new.generation, LoadMsg::Done(vec![3])));
    assert_eq!(v.images(), &vec![3]);
    assert!(v.handle(new.generation, LoadMsg::Failed("no".to_string())));
    assert_eq!(v.status(), "no");
    assert!(v.images().is_empty());
}

#[test]
fn the_viewer_has_its_own_options() {
    let c = gui_config(analysis(None, WindowType::Dolph, Palette::Magma)).unwrap();
    assert!(c.palette == Palette::Magma);
    assert_eq!((c.x_size0, c.y_size, c.big_y_size), (2400, 0, 1320));
    assert!(c.win_type == WindowType::Dolph);
    let c = gui_config(analysis(Some(4096), WindowType::Hann, Palette::Sox)).unwrap();
    assert!(c.palette == Palette::Sox);
    assert_eq!((c.y_size, c.big_y_size), (2049, 0));
    assert_eq!(dft_size(&c, 2), 4096);
    assert_eq!((c.perm, c.spectrum_points), (0, 251));
}

#[test]
fn batches_hold_a_tenth_of_a_second() {
    assert_eq!(batch_size(d(44100.0), 2), 8820);
    assert_eq!(batch_size(d(5.0), 2), 2);
    assert_eq!(batch_size(d(44100.9), 1), 4410);
}

#[test]
fn frames_are_published_ten_times_a_second() {
    assert!(publishes(5, 4, 100_000, false));
    assert!(!publishes(5, 4, 99_999, false));
    assert!(!publishes(5, 5, 500_000, false));
    assert!(publishes(5, 5, 0, true));
    assert!(!publishes(0, 4, 500_000, true));
}

#[test]
fn a_spectrogram_knows_its_axes() {
    let s = Spectrogram {
        cfg: Config::default(),
        chans: 2,
        rows: 513,
        cols: 100,
        step_size: 100,
        block_steps: 3,
        rate: d(8000.0),
        dbfs: vec![],
        max: d(0.0),
    };
    let m = SpecMeta::from_spec(&s);
    assert_eq!((m.channels, m.cols, m.db_range, m.dft_size), (2, 100, 120, 1024));
    assert_eq!(f(m.time_span()), 100.0 * 100.0 * 3.0 / 8000.0);
    assert_eq!(f(m.nyquist()), 4000.0);
}

fn plain_step(max: f64, target: usize) -> f64 {
    if max <= 0.0 || target == 0 {
        return 1.0;
    }
    let rough = max / target as f64;
    let mag = 10f64.powf(rough.log10().floor());
    let norm = rough / mag;
    let nice = if norm <= 1.0 {
        1.0
    } else if norm <= 2.0 {
        2.0
    } else if norm <= 5.0 {
        5.0
    } else {
        10.0
    };
    nice * mag
}

fn mag(max: f64, target: i64) -> Double {
    d(10f64.powf(f(rough_step(d(max), target)).log10().floor()))
}

#[test]
fn steps_are_nice() {
    for max in [-1.0, 0.0, 0.003, 1.0, 9.99, 60.0, 123.4, 22050.0, 96000.0] {
        for target in 0..13i64 {
            let got = nice_step(d(max), target, mag(max, target));
            assert_eq!(f(got), plain_step(max, target as usize), "{max} {target}");
        }
    }
}

#[test]
fn targets_follow_the_size() {
    for px in [0.0, 40.0, 99.0, 100.0, 149.9, 600.0, 1e9, -5.0, f64::NAN] {
        assert_eq!(freq_target(d(px)), ((px / 50.0) as usize).clamp(2, 12) as i64);
        assert_eq!(time_target(d(px)), ((px / 90.0) as usize).clamp(2, 12) as i64);
    }
}

#[test]
fn the_centre_is_what_the_gutters_leave() {
    let (w, h) = centre_area(d(1100.0), d(680.0));
    assert_eq!((f(w), f(h)), (944.0, 572.0));
    let (w, h) = centre_area(d(10.0), d(10.0));
    assert_eq!((f(w), f(h)), (1.0, 1.0));
}

fn shown(l: &TickLabel) -> (f64, f64, f64, Align, String) {
    (f(l.left), f(l.top), f(l.width), l.align, l.text.clone())
}

#[test]
fn frequencies_are_labelled() {
    for area_h in [50.0, 572.0, 1400.0] {
        let m = meta();
        let nyq = 22050.0;
        let n = 2.0;
        let band_h = ((area_h - (n - 1.0) * 8.0f64) / n).max(1.0);
        assert_eq!(f(channel_height(&m, d(area_h))), band_h);
        let target = freq_target(d(band_h));
        let step = plain_step(nyq, target as usize);
        let mut want = Vec::new();
        for k in 0..2 {
            let band_top = k as f64 * (band_h + 8.0);
            let mut freqs = Vec::new();
            let mut x = 0.0;
            while x < nyq - step * 0.5 {
                freqs.push(x);
                x += step;
            }
            freqs.push(nyq);
            for x in freqs {
                let y = band_top + (1.0 - x / nyq) * band_h;
                let hi = (band_top + band_h - 14.0).max(band_top);
                let top = (y - 7.0).clamp(band_top, hi);
                want.push((0.0, top, 62.0, Align::End, fmt_freq(d(x))));
            }
        }
        let got: Vec<_> =
            freq_axis_labels(&m, d(area_h), mag(nyq, target)).iter().map(shown).collect();
        assert_eq!(got, want);
    }
}

#[test]
fn times_are_labelled() {
    for area_w in [10.0, 300.0, 944.0] {
        let m = meta();
        let span = f(m.time_span());
        let target = time_target(d(area_w));
        let step = plain_step(span, target as usize);
        let mut want = Vec::new();
        let mut t = 0.0;
        while t <= span + 1e-6 {
            let frac = (t / span).clamp(0.0, 1.0);
            let x = frac * area_w;
            let (left, align) = if frac <= 1e-6 {
                (0.0, Align::Start)
            } else if frac >= 1.0 - 1e-6 {
                ((area_w - 48.0f64).max(0.0), Align::End)
            } else {
                ((x - 24.0).clamp(0.0, (area_w - 48.0f64).max(0.0)), Align::Center)
            };
            want.push((left, 9.0, 48.0, align, fmt_time(d(t))));
            t += step;
        }
        let got: Vec<_> =
            time_axis_labels(&m, d(area_w), mag(span, target)).iter().map(shown).collect();
        assert_eq!(got, want);
    }
    let mut m = meta();
    m.cols = 0;
    assert!(time_axis_labels(&m, d(900.0), d(1.0)).is_empty());
}

#[test]
fn levels_are_labelled() {
    let got: Vec<_> = legend_labels(&meta(), d(572.0)).iter().map(shown).collect();
    assert_eq!(got.len(), 7);
    assert_eq!(got[0], (6.0, 0.0, 60.0, Align::Start, "0".to_string()));
    assert_eq!(got[1], (6.0, 20.0 / 120.0 * 572.0 - 7.0, 60.0, Align::Start, "-20".to_string()));
    assert_eq!(got[6], (6.0, 558.0, 60.0, Align::Start, "-120".to_string()));
}

#[test]
fn frequencies_in_words() {
    for hz in [0.0f64, 50.0, 440.4, 999.4, 999.6, 1000.0, 1500.0, 2000.0, 22050.0, 11025.0, 96000.0] {
        let want = if hz >= 1000.0 {
            let k = hz / 1000.0;
            if (k - k.round()).abs() < 1e-6 {
                format!("{}k", k.round() as i64)
            } else {
                format!("{k:.1}k")
            }
        } else {
            format!("{}", hz.round() as i64)
        };
        assert_eq!(fmt_freq(d(hz)), want);
    }
    assert_eq!(fmt_freq(d(22050.0)), "22.1k");
}

#[test]
fn seconds_in_words() {
    for s in [0.0f64, 0.2, 0.25, 0.35, 5.0, 59.96, 60.0, 61.4, 119.7, 3599.0, 7200.5] {
        let want = if s < 60.0 {
            if (s - s.round()).abs() < 1e-6 {
                format!("{}s", s.round() as i64)
            } else {
                format!("{s:.1}s")
            }
        } else {
            let m = (s / 60.0).floor() as i64;
            let sec = (s - m as f64 * 60.0).round() as i64;
            format!("{m}:{sec:02}")
        };
        assert_eq!(fmt_time(d(s)), want, "{s}");
    }
    assert_eq!(fmt_time(d(61.4)), "1:01");
}

fn track() -> Track {
    Track {
        file_name: "song.flac".to_string(),
        file_stem: "song".to_string(),
        extension: Some("FLAC".to_string()),
        kind: None,
        artist: None,
        title: None,
        bit_depth: None,
    }
}

#[test]
fn a_track_is_introduced() {
    let i = track_info(&track(), d(44100.0), 2, 1024, WindowType::Hann);
    assert_eq!(i.line1, "song.flac");
    assert_eq!(i.line2, "FLAC \u{b7} 2 ch \u{b7} 44.1 kHz \u{b7} \u{2014} \u{b7} 1024-pt \u{b7} Hann");
    let mut t = track();
    t.artist = Some("A".to_string());
    t.bit_depth = Some(16);
    t.kind = Some(FileKind::Mpeg);
    let i = track_info(&t, d(48000.0), 1, 512, WindowType::Kaiser);
    assert_eq!(i.line1, "A \u{2014} song");
    assert_eq!(i.line2, "MP3 \u{b7} 1 ch \u{b7} 48 kHz \u{b7} 16-bit \u{b7} 512-pt \u{b7} Kaiser");
    t.title = Some("T".to_string());
    let i = track_info(&t, d(48000.0), 1, 512, WindowType::Kaiser);
    assert_eq!(i.line1, "A \u{2014} T");
    t.artist = None;
    t.extension = None;
    t.kind = None;
    let i = track_info(&t, d(22050.0), 1, 512, WindowType::Kaiser);
    assert_eq!(i.line1, "T");
    assert!(i.line2.starts_with("Audio \u{b7} 1 ch \u{b7} 22.1 kHz"));
}

#[test]
fn kinds_of_files_have_names() {
    let all = [
        (FileKind::Flac, "FLAC"),
        (FileKind::Mpeg, "MP3"),
        (FileKind::Wav, "WAV"),
        (FileKind::Aiff, "AIFF"),
        (FileKind::Vorbis, "OGG Vorbis"),
        (FileKind::Opus, "Opus"),
        (FileKind::Mp4, "MP4/AAC"),
        (FileKind::Aac, "AAC"),
        (FileKind::Ape, "APE"),
        (FileKind::WavPack, "WavPack"),
        (FileKind::Mpc, "Musepack"),
        (FileKind::Speex, "Speex"),
        (FileKind::Other, "Audio"),
    ];
    for (kind, name) in all {
        assert_eq!(file_type_name(kind), name);
    }
}

#[test]
fn a_failure_names_the_file() {
    assert_eq!(failure("a.wav", "why"), "Failed to load a.wav: why");
}

#[test]
fn channels_share_the_height() {
    for n in 1..8usize {
        for (origin, height) in [(74.0f32, 572.0f32), (0.1, 333.3), (10.0, 3.0)] {
            let total = height - (n as f32 - 1.0) * 8.0;
            let each = (total / n as f32).max(1.0);
            let places = band_places(origin.to_bits(), height.to_bits(), n);
            assert_eq!(places.len(), n);
            for (k, band) in places.iter().enumerate() {
                let top = origin + k as f32 * (each + 8.0);
                assert_eq!((band.top, band.height), (top.to_bits(), each.to_bits()));
            }
        }
    }
    assert!(band_places(0, 0, 0).is_empty());
}

#[test]
fn a_load_of_known_length_goes_in_batches() {
    let mut l = Loader::new(Some(100), d(40.0), 1);
    assert!(matches!(l.on_chunk(true, &[1, 2]), ChunkStep::Wait));
    match l.on_chunk(true, &[3, 4, 5]) {
        ChunkStep::Push(samples) => assert_eq!(samples, vec![1, 2, 3, 4, 5]),
        _ => panic!("nothing to push"),
    }
    assert!(!l.on_pushed(0, 500_000));
    assert!(l.on_pushed(3, 100_000));
    assert!(!l.on_pushed(3, 500_000));
    assert!(!l.on_pushed(4, 99_999));
    assert!(matches!(l.on_chunk(true, &[6]), ChunkStep::Wait));
    match l.on_end(true) {
        EndStep::Finish(Some(rest)) => assert_eq!(rest, vec![6]),
        _ => panic!("no rest"),
    }
    let l = Loader::new(Some(100), d(40.0), 1);
    assert!(matches!(l.on_end(true), EndStep::Finish(None)));
}

#[test]
fn a_load_of_unknown_length_waits_for_the_end() {
    let mut l = Loader::new(None, d(10.0), 1);
    assert!(matches!(l.on_chunk(true, &[1, 2, 3]), ChunkStep::Wait));
    assert!(matches!(l.on_chunk(true, &[4]), ChunkStep::Wait));
    match l.on_end(false) {
        EndStep::Whole(all) => assert_eq!(all, vec![1, 2, 3, 4]),
        _ => panic!("not whole"),
    }
}

#[test]
fn a_superseded_load_is_given_up() {
    let mut l = Loader::new(Some(100), d(40.0), 1);
    assert!(matches!(l.on_chunk(false, &[1; 50]), ChunkStep::Abandon));
    assert!(matches!(l.on_end(false), EndStep::Abandon));
}
