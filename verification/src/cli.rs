//! The command line, once its words have been taken apart.
use crate::arith::whole;
use crate::config::{
    copy_text, default_config, finalized, overdetermined, text_view, two_heights, Config,
    ConfigView, MAX_X_SIZE, MAX_Y_SIZE,
};
use crate::double::Double;
use crate::geometry::{sized, transform_size};
use crate::gradient::{named_palette, palette_named, Palette};
use crate::palette::{colourful, encodable};
use crate::window::WindowType;
use vstd::prelude::*;
use vstd::string::*;

verus! {

/// The options as given.
#[derive(Debug)]
pub struct Options {
    /// Whether there is an input.
    pub input: bool,
    pub gui: bool,
    pub output: Option<String>,
    pub width: Option<i32>,
    pub pixels_per_sec: Option<Double>,
    pub duration: Option<String>,
    pub start: Option<String>,
    pub height: Option<i32>,
    pub fft_size: Option<i32>,
    pub total_height: Option<i32>,
    pub db_range: Option<i32>,
    pub db_max: Option<i32>,
    pub normalize: bool,
    pub colors: Option<i32>,
    pub window: WindowType,
    pub window_adjust: Option<Double>,
    pub slack_overlap: bool,
    pub light_background: bool,
    pub monochrome: bool,
    pub high_colour: bool,
    pub permute: Option<i32>,
    pub alt_palette: bool,
    /// The name of a gradient.
    pub palette: Option<String>,
    pub no_axis_lines: bool,
    pub raw: bool,
    pub truncate: bool,
    pub title: Option<String>,
    pub comment: Option<String>,
}

/// What is given, or else `default`.
pub open spec fn given(option: Option<i32>, default: int) -> int {
    match option {
        Some(v) => v as int,
        None => default,
    }
}

/// What is given, or else `default`.
pub open spec fn given_number(option: Option<Double>, default: Double) -> Double {
    match option {
        Some(v) => v,
        None => default,
    }
}

/// What is given, or else `default`.
pub open spec fn given_text(option: Option<String>, default: Seq<char>) -> Seq<char> {
    match option {
        Some(t) => t@,
        None => default,
    }
}

/// The gradient whose name is given, or else the usual one.
pub open spec fn given_palette(option: Option<String>) -> Palette {
    match option {
        Some(t) => match palette_named(t@) {
            Some(p) => p,
            None => Palette::Sox,
        },
        None => Palette::Sox,
    }
}

/// Whether the name of a gradient is given that there is none of.
pub open spec fn no_palette(option: Option<String>) -> bool {
    option matches Some(t) && palette_named(t@) is None
}

/// What is said of the name of a gradient that there is none of.
pub open spec fn unknown_palette() -> Seq<char> {
    "no such palette (sox, viridis, magma, inferno, plasma, grayscale, green, amber)"@
}

/// Half of a number of points, without a fraction, and one: the rows of a transform.
pub open spec fn rows_of(n: int) -> int {
    if n < 0 {
        1 - (-n) / 2
    } else {
        n / 2 + 1
    }
}

/// The options of a spectrogram that are asked for, before they are final. The length
/// of the transform takes the place of a height.
pub open spec fn asked_for(o: Options) -> ConfigView {
    let d = default_config();
    ConfigView {
        pixels_per_sec: given_number(o.pixels_per_sec, d.pixels_per_sec),
        window_adjust: given_number(o.window_adjust, d.window_adjust),
        x_size0: given(o.width, d.x_size0),
        y_size: match o.fft_size {
            Some(n) => rows_of(n as int),
            None => given(o.height, d.y_size),
        },
        big_y_size: given(o.total_height, d.big_y_size),
        db_range: given(o.db_range, d.db_range),
        gain: given(o.db_max, d.gain),
        spectrum_points: given(o.colors, d.spectrum_points),
        perm: given(o.permute, d.perm),
        monochrome: o.monochrome,
        light_background: o.light_background,
        high_colour: o.high_colour,
        slack_overlap: o.slack_overlap,
        no_axes: o.no_axis_lines,
        normalize: o.normalize,
        raw: o.raw,
        alt_palette: o.alt_palette,
        palette: given_palette(o.palette),
        truncate: o.truncate,
        win_type: o.window,
        title: text_view(o.title),
        comment: given_text(o.comment, d.comment),
        duration_str: text_view(o.duration),
        start_time_str: text_view(o.start),
        out_name: given_text(o.output, d.out_name),
    }
}

/// Whether a number is given that lies outside of its bounds, or is none.
pub open spec fn outside(option: Option<Double>, lo: int, hi: int) -> bool {
    option matches Some(v) && !(whole(lo).at_most(v) && v.at_most(whole(hi)))
}

fn out_of_bounds(option: &Option<Double>, lo: i64, hi: i64) -> (b: bool)
    ensures
        b == outside(*option, lo as int, hi as int),
{
    match option {
        Some(v) => !v.within(Double::from_i64(lo), Double::from_i64(hi)),
        None => false,
    }
}

fn or(option: Option<i32>, default: i32) -> (v: i32)
    ensures
        v == given(option, default as int),
{
    match option {
        Some(v) => v,
        None => default,
    }
}

fn or_zero(option: Option<Double>) -> (v: Double)
    ensures
        v == given_number(option, (Double { bits: 0 })),
{
    match option {
        Some(v) => v,
        None => Double { bits: 0 },
    }
}

fn or_text(option: &Option<String>, default: &str) -> (v: String)
    ensures
        v@ == given_text(*option, default@),
{
    match option {
        Some(t) => t.as_str().to_string(),
        None => default.to_string(),
    }
}

fn or_usual(option: &Option<String>) -> (p: Palette)
    ensures
        p == given_palette(*option),
{
    match option {
        Some(t) => match named_palette(t.as_str()) {
            Some(p) => p,
            None => Palette::Sox,
        },
        None => Palette::Sox,
    }
}

fn rows_for(n: i32) -> (rows: i32)
    ensures
        rows == rows_of(n as int),
{
    if n < 0 {
        1 - (-(n as i64) / 2) as i32
    } else {
        n / 2 + 1
    }
}

/// The options of a spectrogram that are asked for, before they are final.
fn requested(o: &Options) -> (cfg: Config)
    ensures
        cfg@ == asked_for(*o),
{
    Config {
        pixels_per_sec: or_zero(o.pixels_per_sec),
        window_adjust: or_zero(o.window_adjust),
        x_size0: or(o.width, 0),
        y_size: match o.fft_size {
            // a transform of n points has n / 2 + 1 rows
            Some(n) => rows_for(n),
            None => or(o.height, 0),
        },
        big_y_size: or(o.total_height, 0),
        db_range: or(o.db_range, 120),
        gain: or(o.db_max, 0),
        spectrum_points: or(o.colors, 249),
        perm: or(o.permute, 1),
        monochrome: o.monochrome,
        light_background: o.light_background,
        high_colour: o.high_colour,
        slack_overlap: o.slack_overlap,
        no_axes: o.no_axis_lines,
        normalize: o.normalize,
        raw: o.raw,
        alt_palette: o.alt_palette,
        palette: or_usual(&o.palette),
        truncate: o.truncate,
        win_type: o.window,
        title: copy_text(&o.title),
        comment: or_text(&o.comment, "Created by RustSpeck"),
        duration_str: copy_text(&o.duration),
        start_time_str: copy_text(&o.start),
        out_name: or_text(&o.output, "spectrogram.png"),
    }
}

/// The final options of a spectrogram.
pub fn build_config(o: &Options) -> (r: Result<Config, String>)
    requires
        given(o.db_max, 0) > i32::MIN,
        given(o.permute, 1) > i32::MIN,
        given(o.colors, 249) <= i32::MAX - 2,
    ensures
        if outside(o.pixels_per_sec, 1, 5000) {
            r matches Err(text) && text@ == "pixels-per-sec (-X) must be between 1 and 5000"@
        } else if outside(o.window_adjust, -10, 10) {
            r matches Err(text) && text@ == "window-adjust (-W) must be between -10 and 10"@
        } else if no_palette(o.palette) {
            r matches Err(text) && text@ == unknown_palette()
        } else if overdetermined(asked_for(*o)) {
            r matches Err(text) && text@
                == "only two of width (-x), pixels/sec (-X), duration (-d) may be given"@
        } else if two_heights(asked_for(*o)) {
            r matches Err(text) && text@
                == "only one of height (-y), total-height (-Y) may be given"@
        } else {
            r matches Ok(c) && c@ == finalized(asked_for(*o))
        },
{
    if out_of_bounds(&o.pixels_per_sec, 1, 5000) {
        return Err("pixels-per-sec (-X) must be between 1 and 5000".to_string());
    }
    if out_of_bounds(&o.window_adjust, -10, 10) {
        return Err("window-adjust (-W) must be between -10 and 10".to_string());
    }
    if let Some(name) = &o.palette {
        if named_palette(name.as_str()).is_none() {
            return Err(
                "no such palette (sox, viridis, magma, inferno, plasma, grayscale, green, amber)"
                    .to_string(),
            );
        }
    }
    requested(o).finalize()
}

/// Whether an option, where it is given, lies within its limits.
pub open spec fn limited(option: Option<i32>, lo: int, hi: int) -> bool {
    option matches Some(v) ==> lo <= v <= hi
}

/// Whether every option lies within the limits of the command line: a length of the
/// transform stands in place of any height.
pub open spec fn accepted(o: Options) -> bool {
    &&& limited(o.width, 100, MAX_X_SIZE as int)
    &&& limited(o.height, 64, MAX_Y_SIZE as int)
    &&& limited(o.fft_size, 64, 16384)
    &&& limited(o.total_height, 130, MAX_Y_SIZE as int)
    &&& limited(o.db_range, 20, 180)
    &&& limited(o.db_max, -100, 100)
    &&& limited(o.colors, 0, 249)
    &&& limited(o.permute, 1, 6)
    &&& o.fft_size is Some ==> o.height is None && o.total_height is None
}

/// Whether none of the options of a spectrogram is given, and the window is the usual
/// one.
pub open spec fn bare(o: Options) -> bool {
    &&& o.output is None
    &&& o.width is None
    &&& o.pixels_per_sec is None
    &&& o.duration is None
    &&& o.start is None
    &&& o.height is None
    &&& o.fft_size is None
    &&& o.total_height is None
    &&& o.db_range is None
    &&& o.db_max is None
    &&& !o.normalize
    &&& o.colors is None
    &&& o.window is Hann
    &&& o.window_adjust is None
    &&& !o.slack_overlap
    &&& !o.light_background
    &&& !o.monochrome
    &&& !o.high_colour
    &&& o.permute is None
    &&& !o.alt_palette
    &&& o.palette is None
    &&& !o.no_axis_lines
    &&& !o.raw
    &&& !o.truncate
    &&& o.title is None
    &&& o.comment is None
}

/// The default configuration is what a command line without options asks for.
pub proof fn law_defaults_mirror_the_command_line(o: Options)
    requires
        bare(o),
    ensures
        asked_for(o) == default_config(),
        !outside(o.pixels_per_sec, 1, 5000),
        !outside(o.window_adjust, -10, 10),
        !no_palette(o.palette),
        !overdetermined(asked_for(o)),
        !two_heights(asked_for(o)),
{
    assert(asked_for(o) =~= default_config());
}

/// Options within the limits of the command line can be made final, and what comes out
/// has a transform for any number of channels, and a palette that can stand in a file.
pub proof fn law_accepted_options_serve(o: Options, channels: int)
    requires
        accepted(o),
        1 <= channels <= i32::MAX,
    ensures
        given(o.db_max, 0) > i32::MIN,
        given(o.permute, 1) > i32::MIN,
        given(o.colors, 249) <= i32::MAX - 2,
        sized(finalized(asked_for(o)), channels),
        colourful(finalized(asked_for(o))),
        encodable(finalized(asked_for(o))),
{
}

/// A length of the transform that is even is the one that is used, whatever the
/// channels.
pub proof fn law_fft_size_is_the_transform(o: Options, n: i32, channels: int)
    requires
        accepted(o),
        o.fft_size == Some(n),
        n % 2 == 0,
    ensures
        transform_size(finalized(asked_for(o)), channels) == n,
{
}

/// What to do.
#[derive(Clone, Copy, Debug, PartialEq, Eq, Structural)]
pub enum Mode {
    /// Open the viewer.
    View,
    /// Write an image.
    Render,
}

/// The viewer opens unless an image is asked for of an input, and the viewer is not.
pub fn mode(o: &Options) -> (m: Mode)
    ensures
        m == if o.output is Some && !o.gui && o.input {
            Mode::Render
        } else {
            Mode::View
        },
{
    if o.output.is_some() && !o.gui && o.input {
        Mode::Render
    } else {
        Mode::View
    }
}

/// What is said when an image has been written.
pub open spec fn written_text(name: Seq<char>, chans: nat) -> Seq<char> {
    "wrote "@ + name + " ("@ + crate::text::digits(chans) + " channel"@ + (if chans == 1 {
        ""@
    } else {
        "s"@
    }) + ")"@
}

/// What is said when an image has been written.
pub fn written(name: &str, chans: usize) -> (text: String)
    ensures
        text@ == written_text(name@, chans as nat),
{
    let mut text = "wrote ".to_string();
    text.append(name);
    text.append(" (");
    let n = crate::text::decimal(chans as u64);
    text.append(n.as_str());
    text.append(" channel");
    text.append(
        if chans == 1 {
            ""
        } else {
            "s"
        },
    );
    text.append(")");
    text
}

} // verus!
