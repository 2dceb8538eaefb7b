//! Between doubles, singles and whole numbers.
use crate::arith::{saturated, signed, whole, whole_part, with_sign, INVALID};
use crate::double::{scaled, scaled_single, widen, Double, HIDDEN, INFINITE, SIGN};
use crate::rounding::{
    graded, is_near, lemma_below_top, lemma_double_is_graded, lemma_exact_is_nearest,
    lemma_graded_of_parts, lemma_near_is_unique, nearest, power, raised, round, round_to, split,
    stands_for,
};
use vstd::arithmetic::div_mod::{
    lemma_div_pos_is_pos, lemma_fundamental_div_mod, lemma_fundamental_div_mod_converse,
};
use vstd::arithmetic::power2::{
    lemma2_to64, lemma2_to64_rest, lemma_pow2_adds, lemma_pow2_pos, lemma_pow2_strictly_increases,
    lemma_pow2_unfold, pow2,
};
use vstd::prelude::*;

verus! {

/// The largest whole number that is not above a number.
pub open spec fn floor_part(a: Double) -> int {
    if !a.nan() && a.negative() && scaled(a.magnitude()) % pow2(1074) != 0 {
        whole_part(a) - 1
    } else {
        whole_part(a)
    }
}

/// How many times one goes into a magnitude, as far as that fits, and whether it
/// goes into it without a rest.
fn cut(mag: u64) -> (r: (u64, bool))
    requires
        mag <= INFINITE,
    ensures
        r.0 == saturated((scaled(mag) / pow2(1074)) as int, 0, u64::MAX as int),
        r.1 == (scaled(mag) % pow2(1074) == 0),
{
    proof {
        lemma2_to64();
        lemma2_to64_rest();
        lemma_pow2_pos(1074);
    }
    if mag == INFINITE {
        proof {
            lemma_fundamental_div_mod_converse(INFINITE as int, HIDDEN as int, 2047, 0);
            lemma_whole(HIDDEN as nat, 2046);
            lemma_pow2_strictly_increases(64, 972);
            assert(HIDDEN * pow2(972) >= pow2(972)) by (nonlinear_arith);
        }
        return (u64::MAX, true);
    }
    let (m, t) = split(mag);
    if t >= 1074 {
        let k: i32 = t - 1074;
        proof {
            lemma_whole(m as nat, t as nat);
        }
        if k >= 12 {
            proof {
                if k > 12 {
                    lemma_pow2_strictly_increases(12, k as nat);
                }
                assert(m * pow2(k as nat) >= HIDDEN * 4096) by (nonlinear_arith)
                    requires
                        m >= HIDDEN,
                        pow2(k as nat) >= 4096,
                ;
            }
            return (u64::MAX, true);
        }
        let f = power(k as u32);
        proof {
            if k < 11 {
                lemma_pow2_strictly_increases(k as nat, 11);
            }
            assert(m * f <= (2 * HIDDEN - 1) * 2048) by (nonlinear_arith)
                requires
                    m <= 2 * HIDDEN - 1,
                    f <= 2048,
            ;
        }
        ((m as u128 * f) as u64, true)
    } else {
        let k: i32 = 1074 - t;
        if k >= 64 {
            proof {
                if k > 64 {
                    lemma_pow2_strictly_increases(64, k as nat);
                }
                lemma_fraction(m as nat, t as nat, 0, m as nat);
            }
            return (0, m == 0);
        }
        let f = power(k as u32);
        proof {
            lemma_pow2_pos(k as nat);
        }
        let q: u128 = m as u128 / f;
        let rem: u128 = m as u128 % f;
        proof {
            lemma_fundamental_div_mod(m as int, f as int);
            assert(f * q == q * f) by (nonlinear_arith);
            lemma_fraction(m as nat, t as nat, q as nat, rem as nat);
            assert(q <= m) by (nonlinear_arith)
                requires
                    q * f <= m,
                    f >= 1,
                    q >= 0,
            ;
        }
        (q as u64, rem == 0)
    }
}

proof fn lemma_cut_positive(mag: u64)
    ensures
        scaled(mag) / pow2(1074) >= 0,
{
    lemma_pow2_pos(1074);
    lemma_div_pos_is_pos(scaled(mag) as int, pow2(1074) as int);
}

proof fn lemma_whole(m: nat, t: nat)
    requires
        t >= 1074,
    ensures
        (m * pow2(t)) / pow2(1074) == m * pow2((t - 1074) as nat),
        (m * pow2(t)) % pow2(1074) == 0,
{
    let one = pow2(1074) as int;
    let v = m * pow2((t - 1074) as nat);
    lemma_pow2_pos(1074);
    lemma_pow2_adds((t - 1074) as nat, 1074);
    assert(m * pow2(t) == v * one) by (nonlinear_arith)
        requires
            pow2(t) == pow2((t - 1074) as nat) * one,
            v == m * pow2((t - 1074) as nat),
    ;
    lemma_fundamental_div_mod_converse((m * pow2(t)) as int, one, v as int, 0);
}

proof fn lemma_fraction(m: nat, t: nat, q: nat, rem: nat)
    requires
        t < 1074,
        m == q * pow2((1074 - t) as nat) + rem,
        rem < pow2((1074 - t) as nat),
    ensures
        (m * pow2(t)) / pow2(1074) == q,
        (m * pow2(t)) % pow2(1074) == rem * pow2(t),
        (rem * pow2(t) == 0) == (rem == 0),
{
    let one = pow2(1074) as int;
    let f = pow2((1074 - t) as nat) as int;
    let u = pow2(t) as int;
    lemma_pow2_pos(t);
    lemma_pow2_adds(t, (1074 - t) as nat);
    assert(m * u == q * one + rem * u) by (nonlinear_arith)
        requires
            m == q * f + rem,
            one == u * f,
    ;
    assert(0 <= rem * u < one) by (nonlinear_arith)
        requires
            0 <= rem < f,
            one == u * f,
            u > 0,
    ;
    lemma_fundamental_div_mod_converse((m * pow2(t)) as int, one, q as int, (rem * u) as int);
    assert((rem * u == 0) == (rem == 0)) by (nonlinear_arith)
        requires
            u > 0,
            rem >= 0,
    ;
}

impl Double {
    /// Cuts off the fraction; what does not fit becomes the nearest that does.
    pub fn to_i32(self) -> (n: i32)
        ensures
            n == saturated(whole_part(self), i32::MIN as int, i32::MAX as int),
    {
        proof {
            lemma_cut_positive(self.magnitude());
        }
        if self.is_nan() {
            return 0;
        }
        let (n, _) = cut(self.bits % SIGN);
        if self.bits >= SIGN {
            if n > 0x8000_0000 {
                i32::MIN
            } else {
                (-(n as i64)) as i32
            }
        } else if n > 0x7FFF_FFFF {
            i32::MAX
        } else {
            n as i32
        }
    }

    /// Cuts off the fraction; a number below zero gives 0, and one that is too
    /// large the largest.
    pub fn to_u64(self) -> (n: u64)
        ensures
            n == saturated(whole_part(self), 0, u64::MAX as int),
    {
        proof {
            lemma_cut_positive(self.magnitude());
        }
        if self.is_nan() || self.bits >= SIGN {
            return 0;
        }
        let (n, _) = cut(self.bits % SIGN);
        n
    }

    /// Rounds down; what does not fit becomes the nearest that does.
    pub fn floor_i32(self) -> (n: i32)
        ensures
            n == saturated(floor_part(self), i32::MIN as int, i32::MAX as int),
    {
        proof {
            lemma_cut_positive(self.magnitude());
        }
        if self.is_nan() {
            return 0;
        }
        let (n, exact) = cut(self.bits % SIGN);
        if self.bits >= SIGN {
            if n > 0x8000_0000 || (n == 0x8000_0000 && !exact) {
                i32::MIN
            } else if exact {
                (-(n as i64)) as i32
            } else {
                (-(n as i64) - 1) as i32
            }
        } else if n > 0x7FFF_FFFF {
            i32::MAX
        } else {
            n as i32
        }
    }

    /// The double nearest to a whole number.
    pub fn from_i64(n: i64) -> (r: Double)
        ensures
            r == whole(n as int),
    {
        if n < 0 {
            let m: u64 = (-(n as i128)) as u64;
            let mag = near_whole(m);
            with_sign(true, mag)
        } else {
            with_sign(false, near_whole(n as u64))
        }
    }

    /// The double nearest to a whole number.
    pub fn from_u64(n: u64) -> (r: Double)
        ensures
            r == whole(n as int),
    {
        with_sign(false, near_whole(n))
    }
}

fn near_whole(n: u64) -> (mag: u64)
    ensures
        mag <= INFINITE,
        mag == nearest(n as nat * pow2(1074), 1),
{
    let ghost num = n as nat * pow2(1074);
    proof {
        assert(num * raised(-1074) == num * 1);
        assert(n * raised(1074) * 1 == num);
    }
    round(n as u128, 1074, false, Ghost(num), Ghost(1))
}

/// The magnitude bits of infinity in single precision.
pub const INFINITE_SINGLE: u32 = 0x7F80_0000;

/// Whether `mag` is the magnitude of the single nearest to `num / den` times the
/// smallest single above zero.
pub open spec fn is_nearest_single(mag: u32, num: nat, den: nat) -> bool {
    &&& mag <= INFINITE_SINGLE
    &&& mag < INFINITE_SINGLE ==> {
        let middle = (scaled_single(mag) + scaled_single((mag + 1) as u32)) * den;
        2 * num < middle || (2 * num == middle && mag % 2 == 0)
    }
    &&& mag > 0 ==> {
        let middle = (scaled_single((mag - 1) as u32) + scaled_single(mag)) * den;
        2 * num > middle || (2 * num == middle && mag % 2 == 0)
    }
}

/// The magnitude of the nearest single.
pub open spec fn nearest_single(num: nat, den: nat) -> u32 {
    choose|mag: u32| is_nearest_single(mag, num, den)
}

/// The bits of the single nearest to a double.
pub open spec fn narrowed(a: Double) -> u32 {
    let mag = if a.nan() {
        0x7FC0_0000u32
    } else if a.magnitude() == INFINITE {
        INFINITE_SINGLE
    } else {
        nearest_single(scaled(a.magnitude()), pow2(925))
    };
    if a.negative() && !a.nan() {
        (0x8000_0000 + mag) as u32
    } else {
        mag
    }
}

proof fn lemma_single_is_graded(mag: u32)
    ensures
        scaled_single(mag) == graded(23, mag as nat),
        pow2(23) == 0x80_0000,
        INFINITE_SINGLE == 255 * pow2(23),
{
    lemma2_to64();
}

proof fn lemma_nearest_single_is_near(mag: u32, num: nat, den: nat)
    ensures
        is_nearest_single(mag, num, den) == is_near(23, 255, mag as nat, num, den),
{
    lemma_single_is_graded(mag);
    if mag < INFINITE_SINGLE {
        lemma_single_is_graded((mag + 1) as u32);
    }
    if mag > 0 {
        lemma_single_is_graded((mag - 1) as u32);
    }
}

proof fn lemma_narrow(m: nat, t: nat)
    ensures
        stands_for(m, t - 925, false, m * pow2(t), pow2(925)),
{
    let p = t - 925;
    let num = m * pow2(t);
    lemma2_to64();
    if p >= 0 {
        lemma_pow2_adds(p as nat, 925);
        assert(m * pow2(p as nat) * pow2(925) == m * (pow2(p as nat) * pow2(925)))
            by (nonlinear_arith);
        assert(num * raised(-p) == num * 1);
    } else {
        lemma_pow2_adds(t, (-p) as nat);
        assert(m * pow2(t) * pow2((-p) as nat) == m * 1 * (pow2(t) * pow2((-p) as nat)))
            by (nonlinear_arith);
    }
}

impl Double {
    /// The bits of the nearest single.
    pub fn narrow(self) -> (single: u32)
        ensures
            single == narrowed(self),
    {
        let x: u64 = self.bits % SIGN;
        if x > INFINITE {
            return 0x7FC0_0000;
        }
        let mag: u32 = if x == INFINITE {
            INFINITE_SINGLE
        } else {
            let (m, t) = split(x);
            let ghost num = scaled(x);
            proof {
                lemma_narrow(m as nat, t as nat);
                lemma_pow2_pos(925);
                lemma_single_is_graded(0);
            }
            let near = round_to(m as u128, t - 925, false, 23, 255, Ghost(num), Ghost(pow2(925)));
            let mag = near as u32;
            proof {
                lemma_nearest_single_is_near(mag, num, pow2(925));
                assert(is_nearest_single(mag, num, pow2(925)));
                let other = nearest_single(num, pow2(925));
                lemma_nearest_single_is_near(other, num, pow2(925));
                if mag <= other {
                    lemma_near_is_unique(23, 255, mag as nat, other as nat, num, pow2(925));
                } else {
                    lemma_near_is_unique(23, 255, other as nat, mag as nat, num, pow2(925));
                }
            }
            mag
        };
        if self.bits >= SIGN {
            0x8000_0000 + mag
        } else {
            mag
        }
    }

    /// The smaller of two numbers; what is not a number loses.
    pub fn min(self, other: Double) -> (r: Double)
        ensures
            r == smaller(self, other),
    {
        if other.is_nan() || self.lt(other) {
            self
        } else {
            other
        }
    }

    /// The larger of two numbers; what is not a number loses.
    pub fn max(self, other: Double) -> (r: Double)
        ensures
            r == larger(self, other),
    {
        if other.is_nan() || other.lt(self) {
            self
        } else {
            other
        }
    }
}

/// The smaller of two numbers; what is not a number loses.
pub open spec fn smaller(a: Double, b: Double) -> Double {
    if b.nan() || a.less(b) {
        a
    } else {
        b
    }
}

/// The larger of two numbers; what is not a number loses.
pub open spec fn larger(a: Double, b: Double) -> Double {
    if b.nan() || b.less(a) {
        a
    } else {
        b
    }
}

/// A whole number of up to 53 bits is a double.
pub proof fn law_whole_numbers_are_exact(n: int)
    requires
        -0x20_0000_0000_0000 <= n <= 0x20_0000_0000_0000,
    ensures
        whole(n).finite(),
        whole(n).value() == n * pow2(1074),
        whole_part(whole(n)) == n,
{
    let m = if n < 0 {
        -n
    } else {
        n
    };
    let mag = nearest(m as nat * pow2(1074), 1);
    lemma_whole_magnitude(m as nat);
    lemma_pow2_pos(1074);
    assert((-m) * pow2(1074) == -(m * pow2(1074))) by (nonlinear_arith);
    assert(scaled(mag) == m * pow2(1074));
    lemma_fundamental_div_mod_converse(scaled(mag) as int, pow2(1074) as int, m, 0);
    assert(whole(n).magnitude() == mag);
    if n < 0 {
        assert(whole(n).negative());
    }
}

proof fn lemma_whole_magnitude(m: nat)
    requires
        m <= 0x20_0000_0000_0000,
    ensures
        nearest(m * pow2(1074), 1) < INFINITE,
        scaled(nearest(m * pow2(1074), 1)) == m * pow2(1074),
{
    lemma2_to64();
    lemma2_to64_rest();
    if m == 0 {
        lemma_exact_is_nearest(0, 0, 1);
        assert(0 * pow2(1074) == 0);
        assert(scaled(0) == 0);
    } else {
        lemma_whole_shift(m, 0);
    }
}

/// `m` with `k` zeros appended is a double.
proof fn lemma_whole_shift(m: nat, k: nat)
    requires
        0 < m * pow2(k),
        m * pow2(k) <= 0x20_0000_0000_0000,
        k <= 53,
    ensures
        nearest(m * pow2(1074), 1) < INFINITE,
        scaled(nearest(m * pow2(1074), 1)) == m * pow2(1074),
    decreases 53 - k,
{
    let w = m * pow2(k);
    lemma2_to64();
    lemma2_to64_rest();
    if w >= HIDDEN {
        let (q, t): (nat, nat) = if w == 2 * HIDDEN {
            (HIDDEN as nat, (1075 - k) as nat)
        } else {
            (w, (1074 - k) as nat)
        };
        lemma_graded_of_parts(52, t, q);
        let mag = (t * pow2(52) + q) as u64;
        lemma_below_top(52, 2047, q, t);
        lemma_double_is_graded(mag);
        lemma_pow2_adds(k, (1074 - k) as nat);
        lemma_pow2_unfold((1075 - k) as nat);
        assert(m * pow2(k) * pow2((1074 - k) as nat) == m * (pow2(k) * pow2((1074 - k) as nat)))
            by (nonlinear_arith);
        assert(q * pow2(t) == w * pow2((1074 - k) as nat)) by {
            if w == 2 * HIDDEN {
                let z = pow2((1074 - k) as nat) as int;
                assert(HIDDEN * (2 * z) == (2 * HIDDEN) * z) by (nonlinear_arith);
            }
        }
        assert(scaled(mag) * 1 == m * pow2(1074));
        lemma_exact_is_nearest(mag, m * pow2(1074), 1);
    } else {
        if k == 53 {
            assert(m * pow2(53) >= pow2(53)) by (nonlinear_arith)
                requires
                    m * pow2(53) > 0,
            ;
        }
        lemma_pow2_unfold(k + 1);
        assert(m * (2 * pow2(k)) == 2 * (m * pow2(k))) by (nonlinear_arith);
        lemma_whole_shift(m, k + 1);
    }
}

/// The largest whole number that is not above a number, as a double.
pub open spec fn floored(a: Double) -> Double {
    if a.nan() || scaled(a.magnitude()) % pow2(1074) == 0 {
        a
    } else if a.negative() {
        whole(whole_part(a) - 1)
    } else {
        whole(whole_part(a))
    }
}

/// The smallest whole number that is not below a number, as a double. Just below
/// zero it is a zero with a sign.
pub open spec fn ceiled(a: Double) -> Double {
    if a.nan() || scaled(a.magnitude()) % pow2(1074) == 0 {
        a
    } else if a.negative() {
        if whole_part(a) == 0 {
            signed(true, 0)
        } else {
            whole(whole_part(a))
        }
    } else {
        whole(whole_part(a) + 1)
    }
}

/// What has a fraction is not large.
proof fn lemma_with_fraction(mag: u64)
    requires
        mag <= INFINITE,
        scaled(mag) % pow2(1074) != 0,
    ensures
        scaled(mag) / pow2(1074) < 2 * HIDDEN,
{
    lemma_pow2_pos(1074);
    lemma2_to64();
    let e = mag / HIDDEN;
    let m = if e == 0 {
        mag as nat
    } else {
        (HIDDEN + mag % HIDDEN) as nat
    };
    let t = if e == 0 {
        0nat
    } else {
        (e - 1) as nat
    };
    assert(scaled(mag) == m * pow2(t)) by {
        if e == 0 {
            assert(mag % HIDDEN == mag);
            assert(m * pow2(0) == m);
        }
    }
    if t >= 1074 {
        lemma_whole(m, t);
    } else {
        let f = pow2((1074 - t) as nat) as int;
        lemma_pow2_pos((1074 - t) as nat);
        lemma_fundamental_div_mod(m as int, f);
        let q = m as int / f;
        let rem = m as int % f;
        assert(f * q == q * f) by (nonlinear_arith);
        assert(q >= 0 && q <= m) by (nonlinear_arith)
            requires
                m == f * q + rem,
                0 <= rem < f,
                f >= 1,
                m >= 0,
        ;
        lemma_fraction(m, t, q as nat, rem as nat);
    }
}

impl Double {
    /// Rounds down.
    pub fn floor(self) -> (r: Double)
        ensures
            r == floored(self),
    {
        if self.is_nan() {
            return self;
        }
        proof {
            lemma_cut_positive(self.magnitude());
        }
        let (n, exact) = cut(self.bits % SIGN);
        if exact {
            return self;
        }
        proof {
            lemma_with_fraction(self.magnitude());
        }
        if self.bits >= SIGN {
            Double::from_i64(-(n as i64) - 1)
        } else {
            Double::from_i64(n as i64)
        }
    }

    /// Rounds up.
    pub fn ceil(self) -> (r: Double)
        ensures
            r == ceiled(self),
    {
        if self.is_nan() {
            return self;
        }
        proof {
            lemma_cut_positive(self.magnitude());
        }
        let (n, exact) = cut(self.bits % SIGN);
        if exact {
            return self;
        }
        proof {
            lemma_with_fraction(self.magnitude());
        }
        if self.bits >= SIGN {
            if n == 0 {
                with_sign(true, 0)
            } else {
                Double::from_i64(-(n as i64))
            }
        } else {
            Double::from_i64(n as i64 + 1)
        }
    }
}

/// The double equal to a single.
pub open spec fn widened(single: u32) -> Double {
    let mag = single % 0x8000_0000;
    let negative = single >= 0x8000_0000;
    if mag > INFINITE_SINGLE {
        signed(false, INVALID)
    } else if mag == INFINITE_SINGLE {
        signed(negative, INFINITE)
    } else {
        signed(negative, nearest(scaled_single(mag) * pow2(925), 1))
    }
}

/// The double equal to the single with the given bits; every NaN becomes the same one.
pub fn widen_single(single: u32) -> (r: Double)
    ensures
        r == widened(single),
{
    let mag: u32 = single % 0x8000_0000;
    if mag > INFINITE_SINGLE {
        return with_sign(false, INVALID);
    }
    let r = widen(single);
    proof {
        if mag < INFINITE_SINGLE {
            assert(scaled(r.magnitude()) * 1 == scaled_single(mag) * pow2(925));
            lemma_exact_is_nearest(r.magnitude(), scaled_single(mag) * pow2(925), 1);
        }
    }
    r
}

/// The nearest whole number, of two the one that is further from zero; what is not a
/// number gives 0.
pub open spec fn rounded_part(a: Double) -> int {
    if a.nan() {
        0
    } else {
        let n = (scaled(a.magnitude()) / pow2(1074)) as int;
        let up = if 2 * (scaled(a.magnitude()) % pow2(1074)) >= pow2(1074) {
            n + 1
        } else {
            n
        };
        if a.negative() {
            -up
        } else {
            up
        }
    }
}

/// The nearest whole number as a double, with the sign of the number.
pub open spec fn rounded(a: Double) -> Double {
    if a.nan() || scaled(a.magnitude()) % pow2(1074) == 0 {
        a
    } else if rounded_part(a) == 0 {
        signed(a.negative(), 0)
    } else {
        whole(rounded_part(a))
    }
}

/// Whether at least a half is cut off of a magnitude.
fn cuts_half(mag: u64) -> (b: bool)
    requires
        mag <= INFINITE,
    ensures
        b == (2 * (scaled(mag) % pow2(1074)) >= pow2(1074)),
{
    proof {
        lemma2_to64();
        lemma_pow2_pos(1074);
    }
    if mag == INFINITE {
        proof {
            lemma2_to64_rest();
            lemma_fundamental_div_mod_converse(INFINITE as int, HIDDEN as int, 2047, 0);
            lemma_whole(HIDDEN as nat, 2046);
        }
        return false;
    }
    let (m, t) = split(mag);
    if t >= 1074 {
        proof {
            lemma_whole(m as nat, t as nat);
        }
        return false;
    }
    let k: i32 = 1074 - t;
    let ghost u = pow2(t as nat);
    proof {
        lemma_pow2_pos(t as nat);
        lemma_pow2_adds(k as nat, t as nat);
    }
    if k >= 64 {
        proof {
            if k > 64 {
                lemma_pow2_strictly_increases(64, k as nat);
            }
            lemma_fraction(m as nat, t as nat, 0, m as nat);
            let f = pow2(k as nat);
            assert(2 * (m * u) < f * u) by (nonlinear_arith)
                requires
                    2 * m < f,
                    u > 0,
            ;
        }
        return false;
    }
    let f = power(k as u32);
    proof {
        lemma_pow2_pos(k as nat);
    }
    let q: u128 = m as u128 / f;
    let rem: u128 = m as u128 % f;
    proof {
        lemma_fundamental_div_mod(m as int, f as int);
        assert(f * q == q * f) by (nonlinear_arith);
        lemma_fraction(m as nat, t as nat, q as nat, rem as nat);
        assert(2 * (rem * u) >= f * u <==> 2 * rem >= f) by (nonlinear_arith)
            requires
                u > 0,
        ;
        if k < 64 {
            lemma_pow2_strictly_increases(k as nat, 64);
        }
    }
    2 * rem >= f
}

impl Double {
    /// Rounds to the nearest whole number; what does not fit becomes the nearest that
    /// does.
    pub fn round_i64(self) -> (n: i64)
        ensures
            n == saturated(rounded_part(self), i64::MIN as int, i64::MAX as int),
    {
        if self.is_nan() {
            return 0;
        }
        proof {
            lemma_cut_positive(self.magnitude());
        }
        let (n, _) = cut(self.bits % SIGN);
        let half = cuts_half(self.bits % SIGN);
        let below = self.bits >= SIGN;
        if n >= 0x7FFF_FFFF_FFFF_FFFF {
            proof {
                if half {
                    lemma_pow2_pos(1074);
                    assert(scaled(self.magnitude()) % pow2(1074) != 0);
                    lemma_with_fraction(self.magnitude());
                }
            }
            if below {
                if n == 0x7FFF_FFFF_FFFF_FFFF {
                    -0x7FFF_FFFF_FFFF_FFFF
                } else {
                    i64::MIN
                }
            } else {
                i64::MAX
            }
        } else {
            let up: i64 = if half {
                n as i64 + 1
            } else {
                n as i64
            };
            if below {
                -up
            } else {
                up
            }
        }
    }

    /// Rounds to the nearest whole number.
    pub fn round(self) -> (r: Double)
        ensures
            r == rounded(self),
    {
        if self.is_nan() {
            return self;
        }
        proof {
            lemma_cut_positive(self.magnitude());
        }
        let (n, exact) = cut(self.bits % SIGN);
        if exact {
            return self;
        }
        proof {
            lemma_with_fraction(self.magnitude());
        }
        let up: i64 = if cuts_half(self.bits % SIGN) {
            n as i64 + 1
        } else {
            n as i64
        };
        if up == 0 {
            with_sign(self.bits >= SIGN, 0)
        } else if self.bits >= SIGN {
            Double::from_i64(-up)
        } else {
            Double::from_i64(up)
        }
    }

    /// Cuts off the fraction; what does not fit becomes the nearest that does.
    pub fn to_i64(self) -> (n: i64)
        ensures
            n == saturated(whole_part(self), i64::MIN as int, i64::MAX as int),
    {
        if self.is_nan() {
            return 0;
        }
        proof {
            lemma_cut_positive(self.magnitude());
        }
        let (n, _) = cut(self.bits % SIGN);
        if n > 0x7FFF_FFFF_FFFF_FFFF {
            if self.bits >= SIGN {
                i64::MIN
            } else {
                i64::MAX
            }
        } else if self.bits >= SIGN {
            -(n as i64)
        } else {
            n as i64
        }
    }
}

} // verus!
