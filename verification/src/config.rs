//! The options of a spectrogram.
use crate::double::Double;
use crate::gradient::Palette;
use crate::window::WindowType;
use vstd::prelude::*;
use vstd::string::*;

verus! {

/// The widest image, in columns.
pub const MAX_X_SIZE: i32 = 200_000;

/// The highest image, in rows.
pub const MAX_Y_SIZE: i32 = 200_000;

/// The colours of the alternative palette.
pub const ALT_PALETTE_LEN: i32 = 168;

/// The options of a spectrogram. They are collected as a user gives them, and
/// [`Config::finalize`] brings them into the form that the rest works with.
#[derive(Debug)]
pub struct Config {
    /// Columns for a second of sound; zero if not given.
    pub pixels_per_sec: Double,
    /// Adjusts the Kaiser and Dolph windows.
    pub window_adjust: Double,
    /// Columns; zero if not given.
    pub x_size0: i32,
    /// Rows of a channel; zero if not given.
    pub y_size: i32,
    /// Rows of all channels; zero if not given.
    pub big_y_size: i32,
    /// The range of levels shown, in decibels.
    pub db_range: i32,
    /// The level of the brightest colour; its negative once final.
    pub gain: i32,
    /// The number of colours; two more once final.
    pub spectrum_points: i32,
    /// Which permutation of the colours, from 1; from 0 once final.
    pub perm: i32,
    pub monochrome: bool,
    pub light_background: bool,
    pub high_colour: bool,
    pub slack_overlap: bool,
    pub no_axes: bool,
    pub normalize: bool,
    pub raw: bool,
    pub alt_palette: bool,
    /// The gradient that the usual colours follow.
    pub palette: Palette,
    pub truncate: bool,
    pub win_type: WindowType,
    pub title: Option<String>,
    pub comment: String,
    pub duration_str: Option<String>,
    pub start_time_str: Option<String>,
    pub out_name: String,
}

/// The model of the options.
#[verifier::ext_equal]
pub struct ConfigView {
    pub pixels_per_sec: Double,
    pub window_adjust: Double,
    pub x_size0: int,
    pub y_size: int,
    pub big_y_size: int,
    pub db_range: int,
    pub gain: int,
    pub spectrum_points: int,
    pub perm: int,
    pub monochrome: bool,
    pub light_background: bool,
    pub high_colour: bool,
    pub slack_overlap: bool,
    pub no_axes: bool,
    pub normalize: bool,
    pub raw: bool,
    pub alt_palette: bool,
    pub palette: Palette,
    pub truncate: bool,
    pub win_type: WindowType,
    pub title: Option<Seq<char>>,
    pub comment: Seq<char>,
    pub duration_str: Option<Seq<char>>,
    pub start_time_str: Option<Seq<char>>,
    pub out_name: Seq<char>,
}

/// The model of a string that may be missing.
pub open spec fn text_view(s: Option<String>) -> Option<Seq<char>> {
    match s {
        Some(t) => Some(t@),
        None => None,
    }
}

impl View for Config {
    type V = ConfigView;

    open spec fn view(&self) -> ConfigView {
        ConfigView {
            pixels_per_sec: self.pixels_per_sec,
            window_adjust: self.window_adjust,
            x_size0: self.x_size0 as int,
            y_size: self.y_size as int,
            big_y_size: self.big_y_size as int,
            db_range: self.db_range as int,
            gain: self.gain as int,
            spectrum_points: self.spectrum_points as int,
            perm: self.perm as int,
            monochrome: self.monochrome,
            light_background: self.light_background,
            high_colour: self.high_colour,
            slack_overlap: self.slack_overlap,
            no_axes: self.no_axes,
            normalize: self.normalize,
            raw: self.raw,
            alt_palette: self.alt_palette,
            palette: self.palette,
            truncate: self.truncate,
            win_type: self.win_type,
            title: text_view(self.title),
            comment: self.comment@,
            duration_str: text_view(self.duration_str),
            start_time_str: text_view(self.start_time_str),
            out_name: self.out_name@,
        }
    }
}

/// A copy of a string that may be missing.
pub fn copy_text(s: &Option<String>) -> (r: Option<String>)
    ensures
        text_view(r) == text_view(*s),
{
    match s {
        Some(t) => Some(t.as_str().to_string()),
        None => None,
    }
}

impl Clone for Config {
    fn clone(&self) -> (r: Config)
        ensures
            r@ == self@,
    {
        let r = Config {
            pixels_per_sec: self.pixels_per_sec,
            window_adjust: self.window_adjust,
            x_size0: self.x_size0,
            y_size: self.y_size,
            big_y_size: self.big_y_size,
            db_range: self.db_range,
            gain: self.gain,
            spectrum_points: self.spectrum_points,
            perm: self.perm,
            monochrome: self.monochrome,
            light_background: self.light_background,
            high_colour: self.high_colour,
            slack_overlap: self.slack_overlap,
            no_axes: self.no_axes,
            normalize: self.normalize,
            raw: self.raw,
            alt_palette: self.alt_palette,
            palette: self.palette,
            truncate: self.truncate,
            win_type: self.win_type,
            title: copy_text(&self.title),
            comment: self.comment.as_str().to_string(),
            duration_str: copy_text(&self.duration_str),
            start_time_str: copy_text(&self.start_time_str),
            out_name: self.out_name.as_str().to_string(),
        };
        r
    }
}

/// The options when none is given.
pub open spec fn default_config() -> ConfigView {
    ConfigView {
        pixels_per_sec: Double { bits: 0 },
        window_adjust: Double { bits: 0 },
        x_size0: 0,
        y_size: 0,
        big_y_size: 0,
        db_range: 120,
        gain: 0,
        spectrum_points: 249,
        perm: 1,
        monochrome: false,
        light_background: false,
        high_colour: false,
        slack_overlap: false,
        no_axes: false,
        normalize: false,
        raw: false,
        alt_palette: false,
        palette: Palette::Sox,
        truncate: false,
        win_type: WindowType::Hann,
        title: None,
        comment: "Created by RustSpeck"@,
        duration_str: None,
        start_time_str: None,
        out_name: "spectrogram.png"@,
    }
}

impl Default for Config {
    fn default() -> (r: Config)
        ensures
            r@ == default_config(),
    {
        Config {
            pixels_per_sec: Double { bits: 0 },
            window_adjust: Double { bits: 0 },
            x_size0: 0,
            y_size: 0,
            big_y_size: 0,
            db_range: 120,
            gain: 0,
            spectrum_points: 249,
            perm: 1,
            monochrome: false,
            light_background: false,
            high_colour: false,
            slack_overlap: false,
            no_axes: false,
            normalize: false,
            raw: false,
            alt_palette: false,
            palette: Palette::Sox,
            truncate: false,
            win_type: WindowType::Hann,
            title: None,
            comment: "Created by RustSpeck".to_string(),
            duration_str: None,
            start_time_str: None,
            out_name: "spectrogram.png".to_string(),
        }
    }
}

/// What width, time resolution and duration all three would contradict.
pub open spec fn overdetermined(c: ConfigView) -> bool {
    c.x_size0 != 0 && c.pixels_per_sec.magnitude() != 0 && c.duration_str is Some
}

/// Two heights contradict each other.
pub open spec fn two_heights(c: ConfigView) -> bool {
    c.y_size != 0 && c.big_y_size != 0
}

/// The final form of the options.
pub open spec fn finalized(c: ConfigView) -> ConfigView {
    let points = c.spectrum_points + 2;
    ConfigView {
        gain: -c.gain,
        perm: c.perm - 1,
        spectrum_points: if c.alt_palette && points > ALT_PALETTE_LEN {
            ALT_PALETTE_LEN as int
        } else {
            points
        },
        ..c
    }
}

impl Config {
    /// Checks the options against each other and brings them into their final form.
    /// To be called once.
    pub fn finalize(self) -> (r: Result<Config, String>)
        requires
            self.gain > i32::MIN,
            self.perm > i32::MIN,
            self.spectrum_points <= i32::MAX - 2,
        ensures
            if overdetermined(self@) {
                r matches Err(text) && text@
                    == "only two of width (-x), pixels/sec (-X), duration (-d) may be given"@
            } else if two_heights(self@) {
                r matches Err(text) && text@
                    == "only one of height (-y), total-height (-Y) may be given"@
            } else {
                r matches Ok(c) && c@ == finalized(self@)
            },
    {
        let mut cfg = self;
        if cfg.x_size0 != 0 && !cfg.pixels_per_sec.is_zero() && cfg.duration_str.is_some() {
            return Err(
                "only two of width (-x), pixels/sec (-X), duration (-d) may be given".to_string(),
            );
        }
        if cfg.y_size != 0 && cfg.big_y_size != 0 {
            return Err("only one of height (-y), total-height (-Y) may be given".to_string());
        }
        cfg.gain = -cfg.gain;
        cfg.perm = cfg.perm - 1;
        cfg.spectrum_points = cfg.spectrum_points + 2;
        if cfg.alt_palette && cfg.spectrum_points > ALT_PALETTE_LEN {
            cfg.spectrum_points = ALT_PALETTE_LEN;
        }
        assert(cfg@ =~= finalized(self@));
        Ok(cfg)
    }
}

} // verus!
