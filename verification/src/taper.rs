//! The window that a frame is weighted with.
//!
//! A window stands over a frame of sound. Where the sound has not begun yet, or has
//! ended, only part of the frame holds any: the window then is a shorter one, at
//! the end or at the start of the frame, scaled up for what is missing.
use crate::arith::{difference, product, quotient, sum, whole, whole_part};
use crate::config::{Config, ConfigView};
use crate::double::Double;
use crate::window::{
    apply_bartlett, apply_dolph, apply_hamming, apply_hann, apply_kaiser, bartlett, dolph_point,
    fraction, hamming, hann, kaiser, kaiser_beta, kaiser_shape, ratio, WindowType,
};
use vstd::prelude::*;

verus! {

/// The values of functions that are not sums, products and quotients, as far as a
/// window needs them; see the functions of [`crate::window`] that take them.
pub struct Values {
    /// The cosines of the angles, for a Hann or a Hamming window.
    pub cosines: Vec<Double>,
    /// The octaves of the transition band, for a Kaiser window.
    pub octaves: Double,
    /// The power of the attenuation, for a Kaiser window.
    pub power: Double,
    /// The parameter of a Dolph window.
    pub b0: Double,
}

impl Values {
    /// Whether everything is there that a window with `n` points takes.
    pub open spec fn serve(self, win_type: WindowType, n: nat) -> bool {
        match win_type {
            WindowType::Hann => self.cosines@.len() == n,
            WindowType::Hamming => self.cosines@.len() == n,
            WindowType::Kaiser => whole_part(self.octaves) < i32::MAX,
            _ => true,
        }
    }
}

/// The first point of the window and how many points it has, `end` being how far
/// the sound is from filling the frame: above zero before it has begun, below zero
/// when it has ended.
pub open spec fn span(dft_size: int, end: int) -> (int, int) {
    if end < 0 {
        (0, 1 + dft_size + end)
    } else {
        (end, 1 + dft_size - end)
    }
}

/// The first point of the window and how many points it has.
pub fn window_span(dft_size: i32, end: i32) -> (r: (usize, usize))
    requires
        0 <= dft_size < i32::MAX,
        -dft_size <= end <= dft_size,
    ensures
        (r.0 as int, r.1 as int) == span(dft_size as int, end as int),
{
    if end < 0 {
        (0, (1 + dft_size + end) as usize)
    } else {
        (end as usize, (1 + dft_size - end) as usize)
    }
}

/// The attenuation that the Kaiser window is shaped for.
pub open spec fn kaiser_attenuation(c: ConfigView) -> Double {
    product(
        whole(c.db_range + c.gain),
        sum(ratio(11, 10), quotient(c.window_adjust, whole(50))),
    )
}

/// The attenuation that the Dolph window is shaped for.
pub open spec fn dolph_attenuation(c: ConfigView) -> Double {
    sum(
        product(
            whole(c.db_range + c.gain),
            sum(ratio(1005, 1000), quotient(c.window_adjust, whole(50))),
        ),
        whole(6),
    )
}

/// The attenuation that the window is shaped for, where it has one.
pub fn attenuation(cfg: &Config) -> (r: Double)
    ensures
        match cfg.win_type {
            WindowType::Kaiser => r == kaiser_attenuation(cfg@),
            WindowType::Dolph => r == dolph_attenuation(cfg@),
            _ => r == whole(0),
        },
{
    let range = Double::from_i64(cfg.db_range as i64 + cfg.gain as i64);
    let adjust = cfg.window_adjust.over(Double::from_i64(50));
    match cfg.win_type {
        WindowType::Kaiser => range.times(fraction(11, 10).plus(adjust)),
        WindowType::Dolph => range.times(fraction(1005, 1000).plus(adjust)).plus(
            Double::from_i64(6),
        ),
        _ => Double::from_i64(0),
    }
}

/// The window function at point `i` of `n`.
pub open spec fn weight(c: ConfigView, v: Values, n: int, i: int) -> Double {
    let one = whole(1);
    match c.win_type {
        WindowType::Hann => product(one, hann(v.cosines@[i])),
        WindowType::Hamming => product(one, hamming(v.cosines@[i])),
        WindowType::Bartlett => product(one, bartlett(i, n)),
        WindowType::Rectangular => one,
        WindowType::Kaiser => {
            let beta = kaiser_shape(kaiser_attenuation(c), v.octaves, v.power);
            product(one, kaiser(beta, i, n))
        },
        WindowType::Dolph => dolph_point(
            one,
            difference(one, quotient(one, product(v.b0, v.b0))),
            n,
            i,
        ),
    }
}

/// The window before it is scaled.
pub open spec fn unscaled(c: ConfigView, v: Values, dft_size: int, end: int) -> Seq<Double> {
    let (off, n) = span(dft_size, end);
    Seq::new(
        (dft_size + 1) as nat,
        |i: int|
            if off <= i < off + n {
                weight(c, v, n, i - off)
            } else {
                whole(0)
            },
    )
}

/// The sum of the first `n` numbers, added up in turn.
pub open spec fn added(s: Seq<Double>, n: int) -> Double
    decreases n,
{
    if n <= 0 {
        whole(0)
    } else {
        sum(added(s, n - 1), s[n - 1])
    }
}

/// The sum of the whole window over a frame.
pub open spec fn whole_density(c: ConfigView, v: Values, dft_size: int) -> Double {
    added(unscaled(c, v, dft_size, 0), dft_size)
}

/// What the window is scaled by: a sine at full level is to come out at full level,
/// and a frame that is filled in part counts for that part.
pub open spec fn scale(density: Double, dft_size: int, end: int) -> Double {
    let part = quotient(whole(span(dft_size, end).1 - 1), whole(dft_size));
    product(quotient(whole(2), density), product(part, part))
}

/// A sample as a part of full level.
pub open spec fn sample_value(s: i32) -> Double {
    product(whole(s as int), ratio(1, 0x8000_0000))
}

/// A frame of samples, each weighted.
pub open spec fn weighted(frame: Seq<i32>, weights: Seq<Double>) -> Seq<Double> {
    Seq::new(frame.len(), |i: int| product(sample_value(frame[i]), weights[i]))
}

/// The factors of a window over a frame: the window function, scaled but for the point behind
/// the frame.
pub open spec fn factors(c: ConfigView, v: Values, dft_size: int, end: int) -> Seq<Double> {
    let raw = unscaled(c, v, dft_size, end);
    let factor = scale(added(raw, dft_size), dft_size, end);
    Seq::new(
        (dft_size + 1) as nat,
        |i: int|
            if i < dft_size {
                product(raw[i], factor)
            } else {
                raw[i]
            },
    )
}

/// A window over a frame.
pub struct Window {
    /// The factor of each sample, and one more.
    pub weights: Vec<Double>,
    /// The sum of the window function over the frame.
    pub density: Double,
}

impl Window {
    /// The window over a frame of `dft_size` samples that the sound fills up to `end`.
    pub fn make(cfg: &Config, dft_size: i32, end: i32, values: &Values) -> (r: Window)
        requires
            0 <= dft_size < i32::MAX,
            -dft_size <= end <= dft_size,
            values.serve(cfg.win_type, span(dft_size as int, end as int).1 as nat),
        ensures
            ({
                let raw = unscaled(cfg@, *values, dft_size as int, end as int);
                let density = added(raw, dft_size as int);
                let factor = scale(density, dft_size as int, end as int);
                &&& r.density == density
                &&& r.weights@ =~= Seq::new(
                    (dft_size + 1) as nat,
                    |i: int|
                        if i < dft_size {
                            product(raw[i], factor)
                        } else {
                            raw[i]
                        },
                )
            }),
            r.weights@ == factors(cfg@, *values, dft_size as int, end as int),
    {
        let (off, n) = window_span(dft_size, end);
        let one = Double::from_i64(1);
        let zero = Double::from_i64(0);
        let mut h: Vec<Double> = Vec::new();
        let mut i: usize = 0;
        while i < n
            invariant
                i <= n,
                h@.len() == i,
                forall|k: int| 0 <= k < i ==> h@[k] == one,
            decreases n - i,
        {
            h.push(one);
            i = i + 1;
        }
        match cfg.win_type {
            WindowType::Hann => apply_hann(&mut h, values.cosines.as_slice()),
            WindowType::Hamming => apply_hamming(&mut h, values.cosines.as_slice()),
            WindowType::Bartlett => apply_bartlett(&mut h),
            WindowType::Rectangular => {},
            WindowType::Kaiser => {
                let beta = kaiser_beta(attenuation(cfg), values.octaves, values.power);
                apply_kaiser(&mut h, beta);
            },
            WindowType::Dolph => apply_dolph(&mut h, values.b0),
        }
        let ghost raw = unscaled(cfg@, *values, dft_size as int, end as int);
        assert(h@.len() == n);
        assert(forall|k: int|
            0 <= k < n ==> #[trigger] h@[k] == weight(cfg@, *values, n as int, k));
        let size: usize = dft_size as usize;
        let mut weights: Vec<Double> = Vec::new();
        let mut density = zero;
        let mut i: usize = 0;
        while i <= size
            invariant
                i <= size + 1,
                size == dft_size,
                off + n <= size + 1,
                zero == whole(0),
                h@.len() == n,
                raw == unscaled(cfg@, *values, dft_size as int, end as int),
                (off as int, n as int) == span(dft_size as int, end as int),
                forall|k: int|
                    0 <= k < n ==> #[trigger] h@[k] == weight(cfg@, *values, n as int, k),
                weights@ =~= raw.take(i as int),
                raw.len() == size + 1,
                density == added(
                    raw,
                    if i <= size {
                        i as int
                    } else {
                        size as int
                    },
                ),
            decreases size + 1 - i,
        {
            let w = if off <= i && i < off + n {
                h[i - off]
            } else {
                zero
            };
            weights.push(w);
            if i < size {
                density = density.plus(w);
            }
            i = i + 1;
        }
        let part = Double::from_i64(n as i64 - 1).over(Double::from_i64(dft_size as i64));
        let factor = Double::from_i64(2).over(density).times(part.times(part));
        let mut i: usize = 0;
        while i < size
            invariant
                i <= size,
                size == dft_size,
                weights@.len() == size + 1 == raw.len(),
                forall|k: int| 0 <= k < i ==> #[trigger] weights@[k] == product(raw[k], factor),
                forall|k: int| i <= k <= size ==> #[trigger] weights@[k] == raw[k],
            decreases size - i,
        {
            let w = weights[i].times(factor);
            weights.set(i, w);
            i = i + 1;
        }
        assert(weights@ =~= factors(cfg@, *values, dft_size as int, end as int));
        Window { weights, density }
    }

    /// A frame of samples, each weighted.
    pub fn weigh(&self, frame: &[i32]) -> (r: Vec<Double>)
        requires
            frame@.len() <= self.weights@.len(),
        ensures
            r@ == weighted(frame@, self.weights@),
    {
        let part = fraction(1, 0x8000_0000);
        let mut r: Vec<Double> = Vec::new();
        let mut i: usize = 0;
        while i < frame.len()
            invariant
                i <= frame@.len() <= self.weights@.len(),
                part == ratio(1, 0x8000_0000),
                r@ =~= weighted(frame@.take(i as int), self.weights@),
            decreases frame@.len() - i,
        {
            r.push(Double::from_i64(frame[i] as i64).times(part).times(self.weights[i]));
            i = i + 1;
        }
        assert(frame@.take(i as int) =~= frame@);
        r
    }
}

} // verus!
