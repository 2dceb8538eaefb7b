//! Audio spectrograms: a renderer and the logic of a viewer.
//!
//! Sound goes in as samples of thirty-two bits ([`audio`]), is laid out on an image
//! ([`geometry`]), cut into frames that are weighted with a window ([`channel`],
//! [`taper`], [`window`]) and becomes levels, column by column ([`spectrogram`]). The
//! levels are drawn with their axes and a scale of colours ([`render`], [`legend`],
//! [`palette`], [`gradient`]) and leave as a PNG file or as pixels ([`codec`]). Around that stand the
//! command line ([`cli`]), times in words ([`timeparse`]) and the state and the labels
//! of an interactive viewer ([`viewer`], [`loader`], [`course`], [`ticks`]).
//!
//! Numbers with a fraction are doubles, held by their bits ([`double`]) and worked with
//! by exact rules ([`rounding`], [`arith`], [`root`], [`convert`], [`decimal`]): sums,
//! products, quotients and roots are those of IEEE 754, rounded to nearest. What those
//! rules do not give (transforms, logarithms, powers, sines and cosines) is worked out
//! by the program around the library and handed in; every function that takes such a
//! value says which.
//!
//! The modules whose names end in `_laws` state what holds across functions. What they need
//! to know of rounding is in [`bounds`] and [`crumbs`].
pub mod arith;
pub mod audio;
pub mod audio_laws;
pub mod axis;
pub mod bounds;
pub mod canvas;
pub mod channel;
pub mod channel_laws;
pub mod cli;
pub mod codec;
pub mod config;
pub mod convert;
pub mod course;
pub mod crumbs;
pub mod decimal;
pub mod double;
pub mod fallback;
pub mod feeder;
pub mod general;
pub mod geometry;
pub mod geometry_laws;
pub mod gradient;
pub mod image;
pub mod label_laws;
pub mod labels;
pub mod legend;
pub mod legend_laws;
pub mod level_laws;
pub mod loader;
pub mod option_laws;
pub mod palette;
pub mod palette_laws;
pub mod picture_laws;
pub mod power_laws;
pub mod render;
pub mod render_laws;
pub mod root;
pub mod rounding;
pub mod scale_laws;
pub mod shape_laws;
pub mod spectrogram;
pub mod stream_laws;
pub mod taper;
pub mod taper_laws;
pub mod text;
pub mod tick_laws;
pub mod ticks;
pub mod time_laws;
pub mod timeparse;
pub mod track;
pub mod viewer;
pub mod viewer_laws;
pub mod window;
pub mod window_laws;

pub use crate::config::{Config, MAX_X_SIZE, MAX_Y_SIZE};
pub use crate::spectrogram::{Spectrogram, StreamProcessor};
pub use crate::window::WindowType;
use vstd::prelude::*;

verus! {
} // verus!
