//! What becomes of each option.
use crate::arith::whole;
use crate::cli::{accepted, asked_for, no_palette, outside, Options};
use crate::config::{finalized, overdetermined, two_heights};
use crate::convert::law_whole_numbers_are_exact;
use crate::double::{law_order_is_value_order, Double};
use crate::geometry::{transform_size, wanted_rows};
use crate::gradient::palette_named;
use crate::scale_laws::law_channels_share_the_height;
use vstd::arithmetic::power2::pow2;
use vstd::prelude::*;

verus! {

/// The height of a channel is the rows of its transform, whatever the channels: with `h` rows
/// the transform has `2 * (h - 1)` points, and no height of all channels is asked for.
pub proof fn law_a_height_is_that_of_a_channel(o: Options, h: i32, channels: int)
    requires
        accepted(o),
        o.height == Some(h),
        o.fft_size is None,
    ensures
        finalized(asked_for(o)).y_size == h,
        transform_size(finalized(asked_for(o)), channels) == 2 * (h - 1),
        o.total_height is None ==> finalized(asked_for(o)).big_y_size == 0,
        !two_heights(asked_for(o)) <==> o.total_height is None,
{
}

/// The height of all channels is shared by them: it leaves the rows of a channel open, and
/// the rows wanted for each, with two more, fill it as far as whole rows can.
pub proof fn law_a_total_height_is_shared(o: Options, t: i32, channels: int)
    requires
        accepted(o),
        o.total_height == Some(t),
        o.height is None,
        o.fft_size is None,
        1 <= channels,
    ensures
        finalized(asked_for(o)).y_size == 0,
        finalized(asked_for(o)).big_y_size == t,
        !two_heights(asked_for(o)),
        ({
            let y = wanted_rows(finalized(asked_for(o)), channels);
            t < channels * (y + 3) && (y > 32 ==> channels * (y + 2) <= t)
        }),
{
    law_channels_share_the_height(finalized(asked_for(o)), channels);
}

/// Every number that is given reaches its own place in the final options: width, heights,
/// resolution, adjustment and range as they are, the loudest level with its sign turned, the
/// number of colours with two more, and the permutation counted from zero. A number that is
/// not given leaves its place at nothing, or 120 dB, 251 colours and the first permutation.
pub proof fn law_numbers_reach_their_places(o: Options)
    ensures
        ({
            let c = finalized(asked_for(o));
            &&& c.x_size0 == match o.width {
                Some(n) => n as int,
                None => 0,
            }
            &&& c.big_y_size == match o.total_height {
                Some(n) => n as int,
                None => 0,
            }
            &&& o.fft_size is None && o.height is None ==> c.y_size == 0
            &&& o.fft_size matches Some(n) ==> n >= 0 ==> 2 * (c.y_size - 1) <= n < 2 * c.y_size
            &&& c.pixels_per_sec == match o.pixels_per_sec {
                Some(x) => x,
                None => Double { bits: 0 },
            }
            &&& c.window_adjust == match o.window_adjust {
                Some(x) => x,
                None => Double { bits: 0 },
            }
            &&& c.db_range == match o.db_range {
                Some(n) => n as int,
                None => 120,
            }
            &&& c.gain + (match o.db_max {
                Some(n) => n as int,
                None => 0,
            }) == 0
            &&& c.perm + 1 == match o.permute {
                Some(n) => n as int,
                None => 1,
            }
            &&& !o.alt_palette ==> c.spectrum_points == match o.colors {
                Some(n) => n + 2,
                None => 251,
            }
            &&& o.alt_palette && o.colors is None ==> c.spectrum_points == 168
            &&& o.colors matches Some(n) ==> o.alt_palette ==> c.spectrum_points == if n <= 166 {
                n + 2
            } else {
                168
            }
        }),
{
}

/// Every switch reaches its own place in the final options, and so do the window function and
/// the gradient; nothing else decides about them.
pub proof fn law_switches_reach_their_places(o: Options)
    ensures
        ({
            let c = finalized(asked_for(o));
            &&& c.monochrome == o.monochrome
            &&& c.light_background == o.light_background
            &&& c.high_colour == o.high_colour
            &&& c.slack_overlap == o.slack_overlap
            &&& c.no_axes == o.no_axis_lines
            &&& c.normalize == o.normalize
            &&& c.raw == o.raw
            &&& c.alt_palette == o.alt_palette
            &&& c.truncate == o.truncate
            &&& c.win_type == o.window
            &&& o.palette is None ==> c.palette is Sox
            &&& o.palette matches Some(t) ==> palette_named(t@) matches Some(p) ==> c.palette == p
            &&& no_palette(o.palette) <==> (o.palette matches Some(t) && palette_named(t@) is None)
        }),
{
}

/// Every text that is given reaches its own place in the final options as it is. A title,
/// a duration or a start that is not given is missing; there always is a comment and the name
/// of a file.
pub proof fn law_texts_reach_their_places(o: Options)
    ensures
        ({
            let c = finalized(asked_for(o));
            &&& o.title matches Some(t) ==> c.title == Some(t@)
            &&& o.title is None ==> c.title is None
            &&& o.duration matches Some(t) ==> c.duration_str == Some(t@)
            &&& o.duration is None ==> c.duration_str is None
            &&& o.start matches Some(t) ==> c.start_time_str == Some(t@)
            &&& o.start is None ==> c.start_time_str is None
            &&& o.comment matches Some(t) ==> c.comment == t@
            &&& o.comment is None ==> c.comment == "Created by RustSpeck"@
            &&& o.output matches Some(t) ==> c.out_name == t@
            &&& o.output is None ==> c.out_name == "spectrogram.png"@
        }),
{
}

/// Width, resolution and duration are too much together, and any two of them are not; a
/// height of all channels does not go with one of a channel, or with a length of the
/// transform.
pub proof fn law_which_options_exclude_each_other(o: Options)
    requires
        limits(o),
    ensures
        overdetermined(asked_for(o)) <==> o.width is Some && o.pixels_per_sec is Some
            && o.duration is Some,
        two_heights(asked_for(o)) <==> o.total_height is Some && (o.height is Some
            || o.fft_size is Some),
{
}

/// Whether no number is given that stands for none.
pub open spec fn limits(o: Options) -> bool {
    &&& o.width matches Some(n) ==> n > 0
    &&& o.height matches Some(n) ==> n > 0
    &&& o.total_height matches Some(n) ==> n > 0
    &&& o.fft_size matches Some(n) ==> n > 0
    &&& o.pixels_per_sec matches Some(x) ==> x.magnitude() != 0
}

/// A number is outside of its bounds exactly when it is below the lower or above the upper
/// one, or is none. So a resolution goes from 1 to 5000 and an adjustment from -10 to 10.
pub proof fn law_bounds_are_those_of_values(v: Double, lo: int, hi: int)
    requires
        -0x20_0000_0000_0000 <= lo <= 0x20_0000_0000_0000,
        -0x20_0000_0000_0000 <= hi <= 0x20_0000_0000_0000,
    ensures
        v.nan() ==> outside(Some(v), lo, hi),
        v.finite() ==> (outside(Some(v), lo, hi) <==> v.value() < lo * pow2(1074) || hi * pow2(1074)
            < v.value()),
        !v.nan() && !v.finite() ==> outside(Some(v), lo, hi),
        !outside(None, lo, hi),
{
    law_whole_numbers_are_exact(lo);
    law_whole_numbers_are_exact(hi);
    if v.finite() {
        law_order_is_value_order(whole(lo), v);
        law_order_is_value_order(v, whole(hi));
    }
}

} // verus!
