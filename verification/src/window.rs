//! Window functions.
//!
//! A window is made of doubles by sums, products, quotients and square roots. The values
//! of the cosine, of powers and logarithms that it takes are handed in: which ones is
//! said by [`angles`] and the functions that take them.
use crate::arith::{difference, product, quotient, saturated, sum, whole, whole_part};
use crate::double::Double;
use crate::root::root;
use vstd::prelude::*;

verus! {

/// The window functions.
#[derive(Clone, Copy, Debug, PartialEq, Eq, Structural)]
pub enum WindowType {
    Hann,
    Hamming,
    Bartlett,
    Rectangular,
    Kaiser,
    Dolph,
}

impl WindowType {
    /// The place of the function in the order that they are offered in.
    pub open spec fn place(self) -> int {
        match self {
            WindowType::Hann => 0,
            WindowType::Hamming => 1,
            WindowType::Bartlett => 2,
            WindowType::Rectangular => 3,
            WindowType::Kaiser => 4,
            WindowType::Dolph => 5,
        }
    }

    /// The name of the function.
    pub open spec fn spelled(self) -> Seq<char> {
        match self {
            WindowType::Hann => "Hann"@,
            WindowType::Hamming => "Hamming"@,
            WindowType::Bartlett => "Bartlett"@,
            WindowType::Rectangular => "Rectangular"@,
            WindowType::Kaiser => "Kaiser"@,
            WindowType::Dolph => "Dolph"@,
        }
    }

    /// The name of the function.
    pub fn name(self) -> (text: &'static str)
        ensures
            text@ == self.spelled(),
    {
        match self {
            WindowType::Hann => "Hann",
            WindowType::Hamming => "Hamming",
            WindowType::Bartlett => "Bartlett",
            WindowType::Rectangular => "Rectangular",
            WindowType::Kaiser => "Kaiser",
            WindowType::Dolph => "Dolph",
        }
    }
}

/// The next function in the order, the first one behind the last.
pub fn next_window(current: WindowType) -> (next: WindowType)
    ensures
        next.place() == (current.place() + 1) % 6,
{
    match current {
        WindowType::Hann => WindowType::Hamming,
        WindowType::Hamming => WindowType::Bartlett,
        WindowType::Bartlett => WindowType::Rectangular,
        WindowType::Rectangular => WindowType::Kaiser,
        WindowType::Kaiser => WindowType::Dolph,
        WindowType::Dolph => WindowType::Hann,
    }
}

/// `x` held between `lo` and `hi`; `hi` where the two cross.
pub fn range_limit(x: i32, lo: i32, hi: i32) -> (r: i32)
    ensures
        r == if x > hi || lo > hi {
            hi
        } else if x < lo {
            lo
        } else {
            x
        },
{
    let y: i32 = if x < lo {
        lo
    } else {
        x
    };
    if y > hi {
        hi
    } else {
        y
    }
}

/// The double nearest to a circle's circumference in diameters.
pub open spec fn pi() -> Double {
    Double { bits: PI_BITS }
}

/// Its bits.
pub const PI_BITS: u64 = 0x4009_21FB_5444_2D18;

/// The double nearest to a fraction.
pub open spec fn ratio(n: int, d: int) -> Double {
    quotient(whole(n), whole(d))
}

/// The double nearest to a fraction.
pub fn fraction(n: i64, d: i64) -> (r: Double)
    ensures
        r == ratio(n as int, d as int),
{
    Double::from_i64(n).over(Double::from_i64(d))
}

/// Where point `i` of a window with `n` points stands on the circle.
pub open spec fn angle(i: int, n: int) -> Double {
    quotient(product(product(whole(2), pi()), whole(i)), whole(n - 1))
}

/// The angles that the cosine is taken of for a window with `n` points.
pub fn angles(n: usize) -> (r: Vec<Double>)
    requires
        1 <= n <= i64::MAX,
    ensures
        r@ =~= Seq::new(n as nat, |i: int| angle(i, n as int)),
{
    let mut r: Vec<Double> = Vec::new();
    let around = Double::from_i64(2).times(Double { bits: PI_BITS });
    let m = Double::from_i64(n as i64 - 1);
    let mut i: usize = 0;
    while i < n
        invariant
            i <= n <= i64::MAX,
            around == product(whole(2), pi()),
            m == whole(n - 1),
            r@ =~= Seq::new(i as nat, |k: int| angle(k, n as int)),
        decreases n - i,
    {
        r.push(around.times(Double::from_i64(i as i64)).over(m));
        i = i + 1;
    }
    r
}

/// Multiplies each point by `base - swing * cosine`.
fn apply_cosines(h: &mut Vec<Double>, cosines: &[Double], base: Double, swing: Double)
    requires
        cosines@.len() == old(h)@.len(),
    ensures
        final(h)@ =~= Seq::new(
            old(h)@.len(),
            |i: int| product(old(h)@[i], difference(base, product(swing, cosines@[i]))),
        ),
{
    let mut i: usize = 0;
    while i < h.len()
        invariant
            i <= h@.len() == old(h)@.len() == cosines@.len(),
            forall|k: int|
                0 <= k < i ==> h@[k] == product(
                    old(h)@[k],
                    difference(base, product(swing, cosines@[k])),
                ),
            forall|k: int| i <= k < h@.len() ==> h@[k] == old(h)@[k],
        decreases h@.len() - i,
    {
        let v = h[i].times(base.minus(swing.times(cosines[i])));
        h.set(i, v);
        i = i + 1;
    }
}

/// Points, each multiplied by its weight.
pub open spec fn windowed(h: Seq<Double>, weights: Seq<Double>) -> Seq<Double> {
    Seq::new(h.len(), |i: int| product(h[i], weights[i]))
}

/// A cosine turned over and raised.
pub open spec fn raised_cosine(base: Double, swing: Double, cosine: Double) -> Double {
    difference(base, product(swing, cosine))
}

/// The Hann window at a point, given the cosine of its angle.
pub open spec fn hann(cosine: Double) -> Double {
    raised_cosine(ratio(1, 2), ratio(1, 2), cosine)
}

/// The Hamming window at a point, given the cosine of its angle.
pub open spec fn hamming(cosine: Double) -> Double {
    raised_cosine(ratio(53836, 100000), ratio(46164, 100000), cosine)
}

/// The weights of the Hann window.
pub open spec fn hann_weights(cosines: Seq<Double>) -> Seq<Double> {
    Seq::new(cosines.len(), |i: int| hann(cosines[i]))
}

/// The weights of the Hamming window.
pub open spec fn hamming_weights(cosines: Seq<Double>) -> Seq<Double> {
    Seq::new(cosines.len(), |i: int| hamming(cosines[i]))
}

/// The weights of the Bartlett window with `n` points.
pub open spec fn bartlett_weights(n: nat) -> Seq<Double> {
    Seq::new(n, |i: int| bartlett(i, n as int))
}

/// The Hann window, given the cosines of its angles.
pub fn apply_hann(h: &mut Vec<Double>, cosines: &[Double])
    requires
        cosines@.len() == old(h)@.len(),
    ensures
        final(h)@ =~= windowed(old(h)@, hann_weights(cosines@)),
{
    let half = fraction(1, 2);
    apply_cosines(h, cosines, half, half);
}

/// The Hamming window, given the cosines of its angles.
pub fn apply_hamming(h: &mut Vec<Double>, cosines: &[Double])
    requires
        cosines@.len() == old(h)@.len(),
    ensures
        final(h)@ =~= windowed(old(h)@, hamming_weights(cosines@)),
{
    apply_cosines(h, cosines, fraction(53836, 100000), fraction(46164, 100000));
}

/// The absolute value.
pub open spec fn absolute(a: Double) -> Double {
    Double { bits: a.magnitude() }
}

/// The Bartlett window at point `i` of `n`: a triangle.
pub open spec fn bartlett(i: int, n: int) -> Double {
    let m = whole(n - 1);
    let mid = quotient(m, whole(2));
    product(quotient(whole(2), m), difference(mid, absolute(difference(whole(i), mid))))
}

/// The Bartlett window.
pub fn apply_bartlett(h: &mut Vec<Double>)
    requires
        1 <= old(h)@.len() <= i64::MAX,
    ensures
        final(h)@ =~= windowed(old(h)@, bartlett_weights(old(h)@.len())),
{
    let n = h.len();
    let two = Double::from_i64(2);
    let m = Double::from_i64(n as i64 - 1);
    let mid = m.over(two);
    let slope = two.over(m);
    let mut i: usize = 0;
    while i < n
        invariant
            i <= n == h@.len() == old(h)@.len(),
            n <= i64::MAX,
            two == whole(2),
            m == whole(n - 1),
            mid == quotient(m, two),
            slope == quotient(two, m),
            forall|k: int|
                0 <= k < i ==> h@[k] == product(old(h)@[k], bartlett(k, n as int)),
            forall|k: int| i <= k < n ==> h@[k] == old(h)@[k],
        decreases n - i,
    {
        let away = Double::from_i64(i as i64).minus(mid);
        let height = mid.minus(Double { bits: away.bits % 0x8000_0000_0000_0000 });
        let v = h[i].times(slope.times(height));
        h.set(i, v);
        i = i + 1;
    }
}

/// The `k`-th term of the series of the modified Bessel function of order zero at
/// `x`: each is the one before times the square of `x / 2k`.
pub open spec fn bessel_term(x: Double, k: nat) -> Double
    decreases k,
{
    if k == 0 {
        whole(1)
    } else {
        let y = quotient(quotient(x, whole(2)), bessel_count(k));
        product(bessel_term(x, (k - 1) as nat), product(y, y))
    }
}

/// The number `k`, counted up from one.
pub open spec fn bessel_count(k: nat) -> Double
    decreases k,
{
    if k <= 1 {
        whole(1)
    } else {
        sum(bessel_count((k - 1) as nat), whole(1))
    }
}

/// The sum of the terms up to the `k`-th.
pub open spec fn bessel_sum(x: Double, k: nat) -> Double
    decreases k,
{
    if k == 0 {
        whole(1)
    } else {
        sum(bessel_sum(x, (k - 1) as nat), bessel_term(x, k))
    }
}

/// Whether the `k`-th term adds something.
pub open spec fn bessel_grows(x: Double, k: int) -> bool {
    bessel_sum(x, (k - 1) as nat).less(bessel_sum(x, k as nat))
}

/// Whether the `k`-th term is the first that adds nothing.
pub open spec fn bessel_settled(x: Double, k: nat) -> bool {
    &&& k > 0
    &&& !bessel_grows(x, k as int)
    &&& forall|j: int| 0 < j < k ==> #[trigger] bessel_grows(x, j)
}

/// The modified Bessel function of the first kind of order zero, by its series,
/// up to the first term that adds nothing.
pub fn bessel_i0(x: Double) -> (r: Double)
    ensures
        is_bessel(x, r),
        r == bessel(x),
{
    let r = bessel_series(x);
    proof {
        lemma_bessel_is_unique(x, r);
    }
    r
}

fn bessel_series(x: Double) -> (r: Double)
    ensures
        is_bessel(x, r),
{
    let one = Double::from_i64(1);
    let x2 = x.over(Double::from_i64(2));
    let mut term = one;
    let mut total = one;
    let mut count = one;
    let ghost mut k: nat = 0;
    loop
        invariant
            one == whole(1),
            x2 == quotient(x, whole(2)),
            term == bessel_term(x, k),
            total == bessel_sum(x, k),
            count == bessel_count(k + 1),
            forall|j: int| 0 < j <= k ==> #[trigger] bessel_grows(x, j),
        decreases 0x8000_0000_0000_0000 - total.rank(),
    {
        let y = x2.over(count);
        let last = total;
        term = term.times(y.times(y));
        total = total.plus(term);
        count = count.plus(one);
        proof {
            k = k + 1;
        }
        assert(term == bessel_term(x, k));
        assert(total == bessel_sum(x, k));
        if !last.lt(total) {
            assert(bessel_settled(x, k));
            return total;
        }
    }
}

/// One of the ten polynomials that give the shape of a Kaiser window of at least 60
/// dB attenuation, by its coefficients from the highest power down.
pub open spec fn kaiser_row(k: int) -> (Double, Double, Double, Double) {
    let e16 = 10_000_000_000_000_000int;
    let e15 = 1_000_000_000_000_000int;
    let e11 = 100_000_000_000int;
    let e10 = 10_000_000_000int;
    let e7 = 10_000_000int;
    if k == 0 {
        (
            ratio(-6784957, e16),
            ratio(102856, e10),
            ratio(1087556, e7),
            sum(ratio(-8988365, e7), ratio(1, 1000)),
        )
    } else if k == 1 {
        (
            ratio(-6897885, e16),
            ratio(1027433, e11),
            ratio(10876, 100000),
            sum(ratio(-8994658, e7), ratio(2, 1000)),
        )
    } else if k == 2 {
        (
            ratio(-1000683, e15),
            ratio(1030092, e11),
            ratio(1087677, e7),
            sum(ratio(-9007898, e7), ratio(3, 1000)),
        )
    } else if k == 3 {
        (
            ratio(-3654474, e16),
            ratio(1040631, e11),
            ratio(1087085, e7),
            sum(ratio(-8977766, e7), ratio(6, 1000)),
        )
    } else if k == 4 {
        (
            ratio(8106988, e15),
            ratio(6983091, 1_000_000_000_000),
            ratio(1091387, e7),
            sum(ratio(-9172048, e7), ratio(15, 1000)),
        )
    } else if k == 5 {
        (
            ratio(9519571, e15),
            ratio(7272678, 1_000_000_000_000),
            ratio(1090068, e7),
            sum(ratio(-9140768, e7), ratio(25, 1000)),
        )
    } else if k == 6 {
        (
            ratio(-5626821, e15),
            ratio(1342186, e11),
            ratio(1083999, e7),
            sum(ratio(-9065452, e7), ratio(5, 100)),
        )
    } else if k == 7 {
        (
            ratio(-9965946, 100_000_000_000_000),
            ratio(5073548, e11),
            ratio(1040967, e7),
            sum(ratio(-7672778, e7), ratio(85, 1000)),
        )
    } else if k == 8 {
        (
            ratio(1604808, 10_000_000_000_000),
            ratio(-5856462, e11),
            ratio(1185998, e7),
            sum(ratio(-134824, 100000), ratio(1, 10)),
        )
    } else {
        (
            ratio(-1511964, 10_000_000_000_000),
            ratio(6363034, e11),
            ratio(1064627, e7),
            sum(ratio(-9876665, e7), ratio(18, 100)),
        )
    }
}

fn kaiser_coefficients(k: i32) -> (r: (Double, Double, Double, Double))
    requires
        0 <= k <= 9,
    ensures
        r == kaiser_row(k as int),
{
    let e16: i64 = 10_000_000_000_000_000;
    let e15: i64 = 1_000_000_000_000_000;
    let e11: i64 = 100_000_000_000;
    let e10: i64 = 10_000_000_000;
    let e7: i64 = 10_000_000;
    if k == 0 {
        (
            fraction(-6784957, e16),
            fraction(102856, e10),
            fraction(1087556, e7),
            fraction(-8988365, e7).plus(fraction(1, 1000)),
        )
    } else if k == 1 {
        (
            fraction(-6897885, e16),
            fraction(1027433, e11),
            fraction(10876, 100000),
            fraction(-8994658, e7).plus(fraction(2, 1000)),
        )
    } else if k == 2 {
        (
            fraction(-1000683, e15),
            fraction(1030092, e11),
            fraction(1087677, e7),
            fraction(-9007898, e7).plus(fraction(3, 1000)),
        )
    } else if k == 3 {
        (
            fraction(-3654474, e16),
            fraction(1040631, e11),
            fraction(1087085, e7),
            fraction(-8977766, e7).plus(fraction(6, 1000)),
        )
    } else if k == 4 {
        (
            fraction(8106988, e15),
            fraction(6983091, 1_000_000_000_000),
            fraction(1091387, e7),
            fraction(-9172048, e7).plus(fraction(15, 1000)),
        )
    } else if k == 5 {
        (
            fraction(9519571, e15),
            fraction(7272678, 1_000_000_000_000),
            fraction(1090068, e7),
            fraction(-9140768, e7).plus(fraction(25, 1000)),
        )
    } else if k == 6 {
        (
            fraction(-5626821, e15),
            fraction(1342186, e11),
            fraction(1083999, e7),
            fraction(-9065452, e7).plus(fraction(5, 100)),
        )
    } else if k == 7 {
        (
            fraction(-9965946, 100_000_000_000_000),
            fraction(5073548, e11),
            fraction(1040967, e7),
            fraction(-7672778, e7).plus(fraction(85, 1000)),
        )
    } else if k == 8 {
        (
            fraction(1604808, 10_000_000_000_000),
            fraction(-5856462, e11),
            fraction(1185998, e7),
            fraction(-134824, 100000).plus(fraction(1, 10)),
        )
    } else {
        (
            fraction(-1511964, 10_000_000_000_000),
            fraction(6363034, e11),
            fraction(1064627, e7),
            fraction(-9876665, e7).plus(fraction(18, 100)),
        )
    }
}

/// A cubic polynomial at `x`.
pub open spec fn cubic(c: (Double, Double, Double, Double), x: Double) -> Double {
    sum(product(sum(product(sum(product(c.0, x), c.1), x), c.2), x), c.3)
}

fn eval_cubic(c: (Double, Double, Double, Double), x: Double) -> (r: Double)
    ensures
        r == cubic(c, x),
{
    c.0.times(x).plus(c.1).times(x).plus(c.2).times(x).plus(c.3)
}

/// The row of the polynomial for an octave.
pub open spec fn kaiser_index(octave: int) -> int {
    saturated(octave, 0, 9)
}

/// The shape of a Kaiser window with an attenuation of `att` dB. `octaves` is the
/// logarithm to base two of the transition band over 0.0005, and `root` is what
/// `att` exceeds 20.96 by, to the power of 0.4.
pub open spec fn kaiser_shape(att: Double, octaves: Double, root: Double) -> Double {
    if whole(60).at_most(att) {
        let octave = saturated(whole_part(octaves), i32::MIN as int, i32::MAX as int);
        let b0 = cubic(kaiser_row(kaiser_index(octave)), att);
        let b1 = cubic(kaiser_row(kaiser_index(octave + 1)), att);
        sum(b0, product(difference(b1, b0), difference(octaves, whole(octave))))
    } else if whole(50).less(att) {
        product(ratio(1102, 10000), difference(att, ratio(87, 10)))
    } else if ratio(2096, 100).less(att) {
        sum(
            product(ratio(58417, 100000), root),
            product(ratio(7886, 100000), difference(att, ratio(2096, 100))),
        )
    } else {
        whole(0)
    }
}

/// The shape of a Kaiser window; see [`kaiser_shape`] for `octaves` and `root`.
pub fn kaiser_beta(att: Double, octaves: Double, root: Double) -> (beta: Double)
    requires
        whole_part(octaves) < i32::MAX,
    ensures
        beta == kaiser_shape(att, octaves, root),
{
    if Double::from_i64(60).le(att) {
        let octave: i32 = octaves.to_i32();
        let b0 = eval_cubic(kaiser_coefficients(range_limit(octave, 0, 9)), att);
        let b1 = eval_cubic(kaiser_coefficients(range_limit(octave + 1, 0, 9)), att);
        return b0.plus(b1.minus(b0).times(octaves.minus(Double::from_i64(octave as i64))));
    }
    if Double::from_i64(50).lt(att) {
        return fraction(1102, 10000).times(att.minus(fraction(87, 10)));
    }
    let floor = fraction(2096, 100);
    if floor.lt(att) {
        return fraction(58417, 100000).times(root).plus(
            fraction(7886, 100000).times(att.minus(floor)),
        );
    }
    Double::from_i64(0)
}

/// What the root is taken of at point `i` of a Kaiser window with `n` points.
pub open spec fn kaiser_radicand(i: int, n: int) -> Double {
    let x = difference(quotient(product(whole(2), whole(i)), whole(n - 1)), whole(1));
    difference(whole(1), product(x, x))
}

/// Whether `r` is the value of the Bessel function at `x`; see [`bessel_i0`].
pub open spec fn is_bessel(x: Double, r: Double) -> bool {
    exists|k: nat| bessel_settled(x, k) && r == #[trigger] bessel_sum(x, k)
}

/// The value of the Bessel function; see [`bessel_i0`].
pub open spec fn bessel(x: Double) -> Double {
    choose|r: Double| is_bessel(x, r)
}

/// The series settles but once.
proof fn lemma_bessel_is_unique(x: Double, r: Double)
    requires
        is_bessel(x, r),
    ensures
        r == bessel(x),
{
    let s = bessel(x);
    let j = choose|k: nat| bessel_settled(x, k) && r == #[trigger] bessel_sum(x, k);
    assert(is_bessel(x, s));
    let k = choose|k: nat| bessel_settled(x, k) && s == #[trigger] bessel_sum(x, k);
    if j < k {
        assert(bessel_grows(x, j as int));
    } else if k < j {
        assert(bessel_grows(x, k as int));
    }
}

/// The Kaiser window of shape `beta` at point `i` of `n`.
pub open spec fn kaiser(beta: Double, i: int, n: int) -> Double {
    quotient(bessel(product(beta, root(kaiser_radicand(i, n)))), bessel(beta))
}

/// The Kaiser window of shape `beta`.
pub fn apply_kaiser(h: &mut Vec<Double>, beta: Double)
    requires
        1 <= old(h)@.len() <= i64::MAX,
    ensures
        final(h)@ =~= Seq::new(
            old(h)@.len(),
            |i: int| product(old(h)@[i], kaiser(beta, i, old(h)@.len() as int)),
        ),
{
    let n = h.len();
    let one = Double::from_i64(1);
    let two = Double::from_i64(2);
    let m = Double::from_i64(n as i64 - 1);
    let denom = bessel_i0(beta);
    let mut i: usize = 0;
    while i < n
        invariant
            i <= n == h@.len() == old(h)@.len(),
            n <= i64::MAX,
            one == whole(1),
            two == whole(2),
            m == whole(n - 1),
            denom == bessel(beta),
            forall|k: int|
                0 <= k < i ==> #[trigger] h@[k] == product(old(h)@[k], kaiser(beta, k, n as int)),
            forall|k: int| i <= k < h@.len() ==> h@[k] == old(h)@[k],
        decreases n - i,
    {
        let x = two.times(Double::from_i64(i as i64)).over(m).minus(one);
        let b = bessel_i0(beta.times(one.minus(x.times(x)).sqrt()));
        let w = b.over(denom);
        assert(w == kaiser(beta, i as int, n as int));
        let v = h[i].times(w);
        h.set(i, v);
        i = i + 1;
    }
}

/// Equality of numbers: zeros of either sign are equal, and what is not a number
/// is equal to nothing.
pub open spec fn equal(a: Double, b: Double) -> bool {
    a.at_most(b) && b.at_most(a)
}

/// The factor between two terms of the Dolph window's series.
pub open spec fn dolph_step(c: Double, n: int, i: int, j: int) -> Double {
    product(
        product(c, difference(difference(whole(n), whole(i)), whole(j))),
        quotient(whole(1), whole(j)),
    )
}

/// The series for point `i`, from term `j` on, until the sum `s` stays what it was,
/// `t`. `b` is the term before.
pub open spec fn dolph_series(
    c: Double,
    n: int,
    i: int,
    j: int,
    s: Double,
    t: Double,
    b: Double,
) -> Double
    decreases i - j + 1,
{
    if j <= i && !equal(s, t) {
        let term = product(b, dolph_step(c, n, i, j));
        let next = product(
            term,
            product(difference(whole(i), whole(j)), quotient(whole(1), whole(j))),
        );
        dolph_series(c, n, i, j + 1, sum(s, term), s, next)
    } else {
        s
    }
}

/// The Dolph window with `n` points at point `i`, up to a common factor.
pub open spec fn dolph_raw(c: Double, n: int, i: int) -> Double {
    let start = if i == 0 {
        whole(1)
    } else {
        whole(0)
    };
    quotient(
        dolph_series(c, n, i, 1, start, whole(1), whole(1)),
        difference(difference(whole(n), whole(1)), whole(i)),
    )
}

/// The common factor: the value at the middle, or at the nearest point to it where
/// there is one.
pub open spec fn dolph_norm(c: Double, n: int, i: int) -> Double
    decreases (n - 1) / 2 - i + 1,
{
    if i > (n - 1) / 2 {
        whole(0)
    } else {
        let before = dolph_norm(c, n, i + 1);
        if equal(before, whole(0)) {
            dolph_raw(c, n, i)
        } else {
            before
        }
    }
}

/// The Dolph window with `n` points at point `i` of its first half.
pub open spec fn dolph_weight(c: Double, n: int, i: int) -> Double {
    quotient(dolph_raw(c, n, i), dolph_norm(c, n, i))
}

/// A point of a Dolph window. The two halves are the same; a point in the very
/// middle belongs to both.
pub open spec fn dolph_point(h: Double, c: Double, n: int, p: int) -> Double {
    let q = n - 1 - p;
    if p < q {
        product(h, dolph_weight(c, n, p))
    } else if q < p {
        product(h, dolph_weight(c, n, q))
    } else {
        product(product(h, dolph_weight(c, n, p)), dolph_weight(c, n, p))
    }
}

fn same(a: Double, b: Double) -> (r: bool)
    ensures
        r == equal(a, b),
{
    a.le(b) && b.le(a)
}

fn dolph_value(c: Double, n: i32, i: i32) -> (r: Double)
    requires
        0 <= i < n,
    ensures
        r == dolph_raw(c, n as int, i as int),
{
    let one = Double::from_i64(1);
    let nf = Double::from_i64(n as i64);
    let fi = Double::from_i64(i as i64);
    let mut s = if i == 0 {
        one
    } else {
        Double::from_i64(0)
    };
    let ghost start = s;
    let mut t = one;
    let mut b = one;
    let mut j: i32 = 1;
    while j <= i && !same(s, t)
        invariant
            0 <= i < n,
            1 <= j <= i + 1,
            one == whole(1),
            nf == whole(n as int),
            fi == whole(i as int),
            dolph_series(c, n as int, i as int, j as int, s, t, b) == dolph_series(
                c,
                n as int,
                i as int,
                1,
                start,
                one,
                one,
            ),
        decreases i - j + 1,
    {
        let fj = Double::from_i64(j as i64);
        t = s;
        let inverse = one.over(fj);
        b = b.times(c.times(nf.minus(fi).minus(fj)).times(inverse));
        s = s.plus(b);
        b = b.times(fi.minus(fj).times(inverse));
        j = j + 1;
    }
    s.over(nf.minus(one).minus(fi))
}

/// Weights a point and the one that faces it.
fn weigh(h: &mut Vec<Double>, i: usize, j: usize, w: Double)
    requires
        i < old(h)@.len(),
        j < old(h)@.len(),
    ensures
        final(h)@ == weighed(old(h)@, i as int, j as int, w),
{
    let v = h[i].times(w);
    h.set(i, v);
    let v = h[j].times(w);
    h.set(j, v);
}

/// The points with two of them weighted.
spec fn weighed(h: Seq<Double>, i: int, j: int, w: Double) -> Seq<Double> {
    let first = h.update(i, product(h[i], w));
    first.update(j, product(first[j], w))
}

/// The points of a Dolph window of which those between `i` and the point that faces it
/// are done.
spec fn dolph_between(h: Seq<Double>, c: Double, i: int) -> Seq<Double> {
    let n = h.len() as int;
    Seq::new(
        h.len(),
        |p: int|
            if i < p < n - 1 - i {
                dolph_point(h[p], c, n, p)
            } else {
                h[p]
            },
    )
}

proof fn lemma_dolph_step(h: Seq<Double>, c: Double, i: int)
    requires
        0 <= i <= (h.len() - 1) / 2,
    ensures
        weighed(dolph_between(h, c, i), i, h.len() - 1 - i, dolph_weight(c, h.len() as int, i))
            == dolph_between(h, c, i - 1),
{
    let n = h.len() as int;
    let before = dolph_between(h, c, i);
    let after = dolph_between(h, c, i - 1);
    let w = dolph_weight(c, n, i);
    let got = weighed(before, i, n - 1 - i, w);
    assert forall|p: int| 0 <= p < n implies #[trigger] got[p] == after[p] by {
        if p == i || p == n - 1 - i {
            assert(dolph_point(h[p], c, n, p) == after[p]);
        }
    }
    assert(got =~= after);
}

/// The Dolph window. `b0` is the hyperbolic cosine of a part in `n - 1` of the
/// inverse hyperbolic cosine of the attenuation as a ratio.
pub fn apply_dolph(h: &mut Vec<Double>, b0: Double)
    requires
        1 <= old(h)@.len() <= i32::MAX,
    ensures
        ({
            let n = old(h)@.len() as int;
            let c = difference(whole(1), quotient(whole(1), product(b0, b0)));
            final(h)@ =~= Seq::new(n as nat, |p: int| dolph_point(old(h)@[p], c, n, p))
        }),
{
    let n: i32 = h.len() as i32;
    let one = Double::from_i64(1);
    let zero = Double::from_i64(0);
    let c = one.minus(one.over(b0.times(b0)));
    let ghost len = n as int;
    let mut norm = zero;
    let mut i: i32 = (n - 1) / 2;
    assert(h@ =~= dolph_between(old(h)@, c, i as int));
    while i >= 0
        invariant
            n == old(h)@.len(),
            n >= 1,
            len == n,
            zero == whole(0),
            -1 <= i <= (n - 1) / 2,
            norm == dolph_norm(c, len, i + 1),
            h@ == dolph_between(old(h)@, c, i as int),
        decreases i + 1,
    {
        let raw = dolph_value(c, n, i);
        if same(norm, zero) {
            norm = raw;
        }
        let w = raw.over(norm);
        proof {
            lemma_dolph_step(old(h)@, c, i as int);
        }
        weigh(h, i as usize, (n - 1 - i) as usize, w);
        i = i - 1;
    }
}

} // verus!
