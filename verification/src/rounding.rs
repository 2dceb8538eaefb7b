//! Rounding to nearest.
//!
//! IEEE 754 fixes what the result of an operation is: the double nearest to the exact
//! one, and of two that are equally near the one with an even last bit. Here that is
//! said, and worked out, for any fraction of whole numbers; see [`scaled`] for the unit.
use crate::double::{lemma_scaled_increases, scaled, HIDDEN, INFINITE};
use vstd::arithmetic::div_mod::{
    lemma_div_pos_is_pos, lemma_fundamental_div_mod, lemma_fundamental_div_mod_converse,
};
use vstd::arithmetic::power2::{
    lemma2_to64, lemma2_to64_rest, lemma_pow2_adds, lemma_pow2_pos, lemma_pow2_strictly_increases,
    lemma_pow2_unfold, pow2,
};
use vstd::prelude::*;

verus! {

/// Whether `mag` is the magnitude of the double nearest to `num / den` units.
/// From the largest finite number on, infinity takes the place of the next one.
pub open spec fn is_nearest(mag: u64, num: nat, den: nat) -> bool {
    &&& mag <= INFINITE
    &&& mag < INFINITE ==> {
        let middle = (scaled(mag) + scaled((mag + 1) as u64)) * den;
        2 * num < middle || (2 * num == middle && mag % 2 == 0)
    }
    &&& mag > 0 ==> {
        let middle = (scaled((mag - 1) as u64) + scaled(mag)) * den;
        2 * num > middle || (2 * num == middle && mag % 2 == 0)
    }
}

/// The magnitude of the double nearest to `num / den` units.
pub open spec fn nearest(num: nat, den: nat) -> u64 {
    choose|mag: u64| is_nearest(mag, num, den)
}

/// A magnitude in a format whose fraction has `w` bits, as a number of the smallest
/// magnitudes above zero.
pub open spec fn graded(w: nat, mag: nat) -> nat {
    let exponent = mag / pow2(w);
    let fraction = mag % pow2(w);
    if exponent == 0 {
        fraction
    } else {
        (pow2(w) + fraction) * pow2((exponent - 1) as nat)
    }
}

/// The same as [`is_nearest`] in a format with `w` bits of fraction and infinity at
/// exponent `e`.
pub open spec fn is_near(w: nat, e: nat, mag: nat, num: nat, den: nat) -> bool {
    &&& mag <= e * pow2(w)
    &&& mag < e * pow2(w) ==> {
        let middle = (graded(w, mag) + graded(w, mag + 1)) * den;
        2 * num < middle || (2 * num == middle && mag % 2 == 0)
    }
    &&& mag > 0 ==> {
        let middle = (graded(w, (mag - 1) as nat) + graded(w, mag)) * den;
        2 * num > middle || (2 * num == middle && mag % 2 == 0)
    }
}

/// A larger magnitude is a larger number.
pub proof fn lemma_graded_increases(w: nat, a: nat)
    ensures
        graded(w, a) < graded(w, a + 1),
{
    let h = pow2(w) as int;
    lemma_pow2_pos(w);
    lemma_fundamental_div_mod(a as int, h);
    let e = a as int / h;
    let f = a as int % h;
    assert(h * e == e * h) by (nonlinear_arith);
    assert((e + 1) * h == e * h + h) by (nonlinear_arith);
    assert(e >= 0) by {
        lemma_div_pos_is_pos(a as int, h);
    }
    if e > 0 {
        lemma_pow2_pos((e - 1) as nat);
    }
    lemma_pow2_unfold((e + 1) as nat);
    if f + 1 < h {
        lemma_fundamental_div_mod_converse(a as int + 1, h, e, f + 1);
        if e > 0 {
            let p = pow2((e - 1) as nat) as int;
            assert((h + f) * p < (h + f + 1) * p) by (nonlinear_arith)
                requires
                    p > 0,
            ;
        }
    } else {
        lemma_fundamental_div_mod_converse(a as int + 1, h, e + 1, 0);
        let q = pow2(e as nat) as int;
        lemma_pow2_pos(e as nat);
        if e == 0 {
            lemma2_to64();
            assert(q == 1);
            assert((h + 0) * 1 == h);
        } else {
            lemma_pow2_unfold(e as nat);
            let p = pow2((e - 1) as nat) as int;
            assert((h + f) * p < (h + 0) * q) by (nonlinear_arith)
                requires
                    q == 2 * p,
                    f < h,
                    p > 0,
            ;
        }
    }
}

pub proof fn lemma_graded_monotonic(w: nat, a: nat, b: nat)
    requires
        a <= b,
    ensures
        graded(w, a) <= graded(w, b),
        a < b ==> graded(w, a) < graded(w, b),
    decreases b - a,
{
    if a < b {
        lemma_graded_increases(w, (b - 1) as nat);
        lemma_graded_monotonic(w, a, (b - 1) as nat);
    }
}

/// There is no more than one nearest magnitude.
pub proof fn lemma_near_is_unique(w: nat, e: nat, a: nat, b: nat, num: nat, den: nat)
    requires
        den > 0,
        a <= b,
        is_near(w, e, a, num, den),
        is_near(w, e, b, num, den),
    ensures
        a == b,
{
    if a < b {
        let up = (graded(w, a) + graded(w, a + 1)) as int;
        let down = (graded(w, (b - 1) as nat) + graded(w, b)) as int;
        if a + 1 < b {
            lemma_graded_monotonic(w, a, (b - 1) as nat);
            lemma_graded_monotonic(w, a + 1, b);
            assert(up * den < down * den) by (nonlinear_arith)
                requires
                    up < down,
                    den > 0,
            ;
        }
        assert(false);
    }
}

pub proof fn lemma_double_is_graded(mag: u64)
    ensures
        scaled(mag) == graded(52, mag as nat),
        pow2(52) == HIDDEN,
        INFINITE == 2047 * pow2(52),
{
    lemma2_to64_rest();
}

pub proof fn lemma_nearest_is_near(mag: u64, num: nat, den: nat)
    ensures
        is_nearest(mag, num, den) == is_near(52, 2047, mag as nat, num, den),
{
    lemma_double_is_graded(mag);
    if mag < INFINITE {
        lemma_double_is_graded((mag + 1) as u64);
    }
    if mag > 0 {
        lemma_double_is_graded((mag - 1) as u64);
    }
}

/// There is no more than one nearest double.
pub proof fn lemma_nearest_is_unique(a: u64, b: u64, num: nat, den: nat)
    requires
        den > 0,
        is_nearest(a, num, den),
        is_nearest(b, num, den),
    ensures
        a == b,
{
    lemma_nearest_is_near(a, num, den);
    lemma_nearest_is_near(b, num, den);
    if a <= b {
        lemma_near_is_unique(52, 2047, a as nat, b as nat, num, den);
    } else {
        lemma_near_is_unique(52, 2047, b as nat, a as nat, num, den);
    }
}

/// The magnitude whose leading digits are `q`, in steps of 2^`t`.
pub proof fn lemma_graded_of_parts(w: nat, t: nat, q: nat)
    requires
        q < 2 * pow2(w),
        q >= pow2(w) || t == 0,
    ensures
        graded(w, t * pow2(w) + q) == q * pow2(t),
        graded(w, t * pow2(w) + q + 1) == (q + 1) * pow2(t),
{
    let h = pow2(w) as int;
    let mag = t * h + q;
    lemma2_to64();
    lemma_pow2_pos(w);
    lemma_pow2_unfold(t + 1);
    if q < h {
        assert(0 * h == 0);
        lemma_fundamental_div_mod_converse(q as int, h, 0, q as int);
        if q + 1 < h {
            lemma_fundamental_div_mod_converse(q as int + 1, h, 0, q as int + 1);
        } else {
            assert(1 * h == h);
            lemma_fundamental_div_mod_converse(q as int + 1, h, 1, 0);
        }
        assert(q * pow2(0) == q);
        assert((q + 1) * pow2(0) == q + 1);
    } else {
        assert((t + 1) * h == t * h + h) by (nonlinear_arith);
        assert((t + 2) * h == t * h + 2 * h) by (nonlinear_arith);
        lemma_fundamental_div_mod_converse(mag, h, t as int + 1, q - h);
        if q + 1 < 2 * h {
            lemma_fundamental_div_mod_converse(mag + 1, h, t as int + 1, q + 1 - h);
        } else {
            lemma_fundamental_div_mod_converse(mag + 1, h, t as int + 2, 0);
            assert(h * (2 * pow2(t)) == (2 * h) * pow2(t)) by (nonlinear_arith);
        }
    }
}

/// A power of two.
pub fn power(k: u32) -> (f: u128)
    requires
        k <= 127,
    ensures
        f == pow2(k as nat),
{
    let mut f: u128 = 1;
    let mut i: u32 = 0;
    proof {
        lemma2_to64();
    }
    while k - i >= 16
        invariant
            i <= k <= 127,
            f == pow2(i as nat),
        decreases k - i,
    {
        proof {
            lemma2_to64();
            lemma_pow2_adds(i as nat, 16);
            lemma_pow2_127();
            if i + 16 < 127 {
                lemma_pow2_strictly_increases((i + 16) as nat, 127);
            }
        }
        f = f * 0x1_0000;
        i = i + 16;
    }
    while i < k
        invariant
            i <= k <= 127,
            f == pow2(i as nat),
        decreases k - i,
    {
        proof {
            lemma_pow2_unfold((i + 1) as nat);
            lemma_pow2_127();
            if i + 1 < 127 {
                lemma_pow2_strictly_increases((i + 1) as nat, 127);
            }
        }
        f = f * 2;
        i = i + 1;
    }
    f
}

pub proof fn lemma_pow2_127()
    ensures
        pow2(127) == 0x8000_0000_0000_0000_0000_0000_0000_0000,
{
    lemma2_to64_rest();
    lemma_pow2_adds(63, 64);
    lemma2_to64();
}

/// The number of binary digits of `m`.
pub(crate) fn length(m: u128) -> (len: u32)
    requires
        0 < m < 0x8000_0000_0000_0000_0000_0000_0000_0000,
    ensures
        1 <= len <= 127,
        pow2((len - 1) as nat) <= m < pow2(len as nat),
{
    let mut len: u32 = 1;
    let mut f: u128 = 2;
    proof {
        lemma2_to64();
        lemma_pow2_127();
    }
    while f <= m / 0x1_0000
        invariant
            1 <= len <= 127,
            m < 0x8000_0000_0000_0000_0000_0000_0000_0000,
            f == pow2(len as nat),
            f <= 0x8000_0000_0000_0000_0000_0000_0000_0000,
            pow2((len - 1) as nat) <= m,
        decreases 127 - len,
    {
        proof {
            lemma2_to64();
            lemma_pow2_127();
            lemma_pow2_adds(len as nat, 16);
            lemma_pow2_adds((len - 1) as nat, 16);
            lemma_pow2_unfold(len as nat);
            if len >= 111 {
                if len > 111 {
                    lemma_pow2_strictly_increases(111, len as nat);
                }
                lemma_pow2_adds(111, 16);
            }
        }
        f = f * 0x1_0000;
        len = len + 16;
    }
    while f <= m
        invariant
            1 <= len <= 127,
            m < 0x8000_0000_0000_0000_0000_0000_0000_0000,
            f == pow2(len as nat),
            f <= 0x8000_0000_0000_0000_0000_0000_0000_0000,
            pow2((len - 1) as nat) <= m,
        decreases 127 - len,
    {
        proof {
            lemma_pow2_127();
            if len == 127 {
                assert(false);
            }
            lemma_pow2_unfold((len + 1) as nat);
            if len + 1 < 127 {
                lemma_pow2_strictly_increases((len + 1) as nat, 127);
            }
        }
        f = f * 2;
        len = len + 1;
    }
    len
}

/// 2^`p`, or 1 when `p` is negative.
pub open spec fn raised(p: int) -> nat {
    if p >= 0 {
        pow2(p as nat)
    } else {
        1
    }
}

/// Whether the exact number `num / den` lies in the `m`-th step of width 2^`p`: at
/// its start, or with `more` beyond it.
pub open spec fn stands_for(m: nat, p: int, more: bool, num: nat, den: nat) -> bool {
    let n = num * raised(-p);
    let start = m * raised(p) * den;
    if more {
        start < n < (m + 1) * raised(p) * den
    } else {
        n == start
    }
}

/// Rounds `num / den`, given by its leading digits `m`, their weight and whether
/// anything follows them.
pub(crate) fn round(
    m: u128,
    p: i32,
    more: bool,
    Ghost(num): Ghost<nat>,
    Ghost(den): Ghost<nat>,
) -> (mag: u64)
    requires
        m < 0x8000_0000_0000_0000_0000_0000_0000_0000,
        more ==> m >= 0x40_0000_0000_0000,
        -10000 <= p <= 10000,
        den > 0,
        stands_for(m as nat, p as int, more, num, den),
    ensures
        is_nearest(mag, num, den),
        mag == nearest(num, den),
{
    let mag = round_to(m, p, more, 52, 2047, Ghost(num), Ghost(den));
    proof {
        lemma_nearest_is_near(mag, num, den);
        assert(is_nearest(mag, num, den));
        lemma_nearest_is_unique(mag, nearest(num, den), num, den);
    }
    mag
}

/// Rounds to a magnitude in a format with `w` bits of fraction and infinity at
/// exponent `e`.
#[verifier::spinoff_prover]
pub(crate) fn round_to(
    m: u128,
    p: i32,
    more: bool,
    w: u32,
    e: u32,
    Ghost(num): Ghost<nat>,
    Ghost(den): Ghost<nat>,
) -> (mag: u64)
    requires
        m < 0x8000_0000_0000_0000_0000_0000_0000_0000,
        more ==> m >= 0x40_0000_0000_0000,
        -10000 <= p <= 10000,
        den > 0,
        1 <= w <= 52,
        2 <= e <= 2047,
        stands_for(m as nat, p as int, more, num, den),
    ensures
        is_near(w as nat, e as nat, mag as nat, num, den),
{
    if m == 0 {
        proof {
            lemma_near_zero(w as nat, e as nat, p as int, num, den);
        }
        return 0;
    }
    let h: u64 = power(w) as u64;
    proof {
        lemma2_to64();
        lemma2_to64_rest();
        if w < 52 {
            lemma_pow2_strictly_increases(w as nat, 52);
        }
        lemma_pow2_unfold((w + 1) as nat);
        assert(e * h <= 0x7FF0_0000_0000_0000) by (nonlinear_arith)
            requires
                e <= 2047,
                h <= 0x10_0000_0000_0000,
        ;
    }
    let len: i32 = length(m) as i32;
    let places: i32 = w as i32 + 1;
    let t: i32 = if p + len - places > 0 {
        p + len - places
    } else {
        0
    };
    let s: i32 = t - p;
    if s <= 0 {
        proof {
            if more && len < 55 {
                if len < 54 {
                    lemma_pow2_strictly_increases(len as nat, 54);
                }
            }
            lemma_exact((w + 1) as nat, m as nat, p as int, len as int, t as int, num, den);
        }
        let f = power((-s) as u32);
        let ghost q = m * f;
        if t > e as i32 - 2 {
            proof {
                lemma_near_overflow(w as nat, e as nat, q as nat, t as nat, num, den);
            }
            return e as u64 * h;
        }
        let q: u128 = m * f;
        proof {
            lemma_near_below(w as nat, e as nat, q as nat, t as nat, num, den);
        }
        t as u64 * h + q as u64
    } else if s > 127 {
        proof {
            lemma_pow2_127();
            lemma_vanishes(w as nat, e as nat, m as nat, p as int, more, t as int, num, den);
        }
        0
    } else {
        let r = power(s as u32);
        let half = power((s - 1) as u32);
        proof {
            lemma_pow2_pos(s as nat);
        }
        let q: u128 = m / r;
        let rem: u128 = m % r;
        proof {
            lemma_fundamental_div_mod(m as int, r as int);
            lemma_pow2_unfold(s as nat);
            lemma_inexact(
                (w + 1) as nat,
                m as nat,
                p as int,
                more,
                len as int,
                t as int,
                q as nat,
                rem as nat,
                num,
                den,
            );
        }
        if t > e as i32 - 2 {
            proof {
                lemma_near_overflow(w as nat, e as nat, q as nat, t as nat, num, den);
            }
            return e as u64 * h;
        }
        if rem > half || (rem == half && (more || q % 2 == 1)) {
            proof {
                lemma_near_above(w as nat, e as nat, q as nat, t as nat, num, den);
            }
            t as u64 * h + q as u64 + 1
        } else {
            proof {
                lemma_near_below(w as nat, e as nat, q as nat, t as nat, num, den);
            }
            t as u64 * h + q as u64
        }
    }
}

pub proof fn lemma_graded_of_zero(w: nat)
    ensures
        graded(w, 0) == 0,
        w > 0 ==> graded(w, 1) == 1,
{
    lemma_pow2_pos(w);
    assert(0 * pow2(w) == 0);
    lemma_fundamental_div_mod_converse(0, pow2(w) as int, 0, 0);
    if w > 0 {
        lemma_pow2_unfold(w);
        lemma_pow2_pos((w - 1) as nat);
        lemma_fundamental_div_mod_converse(1, pow2(w) as int, 0, 1);
    }
}

pub proof fn lemma_near_zero(w: nat, e: nat, p: int, num: nat, den: nat)
    requires
        den > 0,
        w > 0,
        stands_for(0, p, false, num, den),
    ensures
        is_near(w, e, 0, num, den),
{
    let v = raised(-p);
    if p <= 0 {
        lemma_pow2_pos((-p) as nat);
    }
    assert(0 * raised(p) * den == 0) by (nonlinear_arith);
    assert(num == 0) by (nonlinear_arith)
        requires
            num * v == 0,
            v > 0,
    ;
    assert(e * pow2(w) >= 0) by (nonlinear_arith);
    lemma_graded_of_zero(w);
}

/// The parts of a magnitude below infinity.
pub proof fn lemma_below_top(w: nat, e: nat, q: nat, t: nat)
    requires
        w > 0,
        t + 2 <= e,
        q < 2 * pow2(w),
    ensures
        t * pow2(w) + q < e * pow2(w),
        (t * pow2(w) + q) % 2 == q % 2,
{
    let h = pow2(w) as int;
    let k = pow2((w - 1) as nat) as int;
    lemma_pow2_unfold(w);
    assert(t * h + 2 * h == (t + 2) * h) by (nonlinear_arith);
    assert((t + 2) * h <= e * h) by (nonlinear_arith)
        requires
            t + 2 <= e,
            h >= 0,
    ;
    assert(t * h == 2 * (t * k)) by (nonlinear_arith)
        requires
            h == 2 * k,
    ;
}

/// A number in the lower half of a step, or in the middle of it with an even
/// start, is nearest to the start of the step.
pub proof fn lemma_near_below(w: nat, e: nat, q: nat, t: nat, num: nat, den: nat)
    requires
        den > 0,
        w > 0,
        t + 2 <= e,
        q < 2 * pow2(w),
        q >= pow2(w) || t == 0,
        q * pow2(t) * den <= num,
        2 * num < (2 * q + 1) * pow2(t) * den || (2 * num == (2 * q + 1) * pow2(t) * den && q % 2 == 0),
    ensures
        t * pow2(w) + q < e * pow2(w),
        is_near(w, e, t * pow2(w) + q, num, den),
{
    lemma_graded_of_parts(w, t, q);
    lemma_below_top(w, e, q, t);
    let mag = t * pow2(w) + q;
    let v = pow2(t) as int;
    assert((q * v + (q + 1) * v) * den == (2 * q + 1) * v * den) by (nonlinear_arith);
    if mag > 0 {
        lemma_graded_increases(w, (mag - 1) as nat);
        let a = graded(w, (mag - 1) as nat) as int;
        assert((a + q * v) * den < 2 * num) by (nonlinear_arith)
            requires
                a < q * v,
                q * v * den <= num,
                den > 0,
        ;
    }
}

/// A number in the upper half of a step, or in the middle of it with an odd start,
/// is nearest to the end of the step.
pub proof fn lemma_near_above(w: nat, e: nat, q: nat, t: nat, num: nat, den: nat)
    requires
        den > 0,
        w > 0,
        t + 2 <= e,
        q < 2 * pow2(w),
        q >= pow2(w) || t == 0,
        num < (q + 1) * pow2(t) * den,
        2 * num > (2 * q + 1) * pow2(t) * den || (2 * num == (2 * q + 1) * pow2(t) * den && q % 2 == 1),
    ensures
        t * pow2(w) + q < e * pow2(w),
        is_near(w, e, t * pow2(w) + q + 1, num, den),
{
    lemma_graded_of_parts(w, t, q);
    lemma_below_top(w, e, q, t);
    let mag = t * pow2(w) + q + 1;
    let v = pow2(t) as int;
    assert((q * v + (q + 1) * v) * den == (2 * q + 1) * v * den) by (nonlinear_arith);
    lemma_graded_increases(w, mag);
    let b = graded(w, mag + 1) as int;
    assert(2 * num < ((q + 1) * v + b) * den) by (nonlinear_arith)
        requires
            (q + 1) * v < b,
            num < (q + 1) * v * den,
            den > 0,
    ;
}

/// A number beyond the finite ones is nearest to infinity.
pub proof fn lemma_near_overflow(w: nat, e: nat, q: nat, t: nat, num: nat, den: nat)
    requires
        den > 0,
        w > 0,
        e >= 2,
        t > e - 2,
        q >= pow2(w),
        q * pow2(t) * den <= num,
    ensures
        is_near(w, e, e * pow2(w), num, den),
{
    let h = pow2(w) as int;
    let top = e * h;
    lemma_pow2_pos(w);
    lemma_fundamental_div_mod_converse(top, h, e as int, 0);
    let v = pow2((e - 1) as nat) as int;
    let u = pow2(t) as int;
    if t > e - 1 {
        lemma_pow2_strictly_increases((e - 1) as nat, t);
    }
    lemma_pow2_pos((e - 1) as nat);
    assert(h * v <= q * u) by (nonlinear_arith)
        requires
            h <= q,
            0 < v <= u,
    ;
    assert(h * v * den <= num) by (nonlinear_arith)
        requires
            h * v <= q * u,
            q * u * den <= num,
            den > 0,
    ;
    assert(top > 0) by (nonlinear_arith)
        requires
            top == e * h,
            e >= 2,
            h > 0,
    ;
    lemma_graded_increases(w, (top - 1) as nat);
    let a = graded(w, (top - 1) as nat) as int;
    assert((a + h * v) * den < 2 * num) by (nonlinear_arith)
        requires
            a < h * v,
            h * v * den <= num,
            den > 0,
    ;
}

/// Digits that fit are kept.
pub proof fn lemma_exact(places: nat, m: nat, p: int, len: int, t: int, num: nat, den: nat)
    requires
        den > 0,
        1 <= len,
        1 <= places,
        pow2((len - 1) as nat) <= m < pow2(len as nat),
        t == if p + len - places > 0 {
            p + len - places
        } else {
            0
        },
        t <= p,
        stands_for(m, p, false, num, den),
    ensures
        p - t <= places,
        m * pow2((p - t) as nat) < pow2(places),
        m * pow2((p - t) as nat) >= pow2((places - 1) as nat) || t == 0,
        m * pow2((p - t) as nat) * pow2(t as nat) * den == num,
        2 * num < (2 * (m * pow2((p - t) as nat)) + 1) * pow2(t as nat) * den,
{
    let f = pow2((p - t) as nat) as int;
    let w = pow2(t as nat) as int;
    let q = m * f;
    lemma2_to64();
    lemma_pow2_pos((p - t) as nat);
    lemma_pow2_pos(t as nat);
    lemma_pow2_adds((p - t) as nat, t as nat);
    assert(m * (f * w) * den == m * f * w * den) by (nonlinear_arith);
    assert(num * 1 == num);
    lemma_pow2_adds((p - t) as nat, len as nat);
    lemma_pow2_adds((p - t) as nat, (len - 1) as nat);
    assert(q < f * pow2(len as nat)) by (nonlinear_arith)
        requires
            q == m * f,
            m < pow2(len as nat),
            f > 0,
    ;
    assert(f * pow2((len - 1) as nat) <= q) by (nonlinear_arith)
        requires
            q == m * f,
            m >= pow2((len - 1) as nat),
            f > 0,
    ;
    if p - t + len < places {
        lemma_pow2_strictly_increases((p - t + len) as nat, places);
    }
    assert(2 * num < (2 * q + 1) * w * den) by (nonlinear_arith)
        requires
            q * w * den == num,
            w > 0,
            den > 0,
    ;
}

/// A number that is far below half of the unit is nearest to zero.
pub proof fn lemma_vanishes(
    w: nat,
    e: nat,
    m: nat,
    p: int,
    more: bool,
    t: int,
    num: nat,
    den: nat,
)
    requires
        den > 0,
        m < pow2(127),
        t >= 0,
        w > 0,
        t == 0 || t < p + 127,
        t - p > 127,
        stands_for(m, p, more, num, den),
    ensures
        is_near(w, e, 0, num, den),
{
    assert(t == 0);
    let v = pow2((-p) as nat) as int;
    lemma_pow2_pos((-p) as nat);
    lemma_pow2_unfold((-p) as nat);
    lemma_pow2_pos(127);
    if -p - 1 > 127 {
        lemma_pow2_strictly_increases(127, (-p - 1) as nat);
    }
    assert(m + 1 <= pow2(127));
    assert(2 * (m + 1) <= v);
    assert(e * pow2(w) >= 0) by (nonlinear_arith);
    lemma_graded_of_zero(w);
    assert(2 * num < 1 * den) by (nonlinear_arith)
        requires
            num * v < (m + 1) * 1 * den || num * v == m * 1 * den,
            2 * (m + 1) <= v,
            v > 0,
            den > 0,
    ;
}

/// Digits that do not fit fall into a step, in its lower or in its upper half.
pub proof fn lemma_inexact(
    places: nat,
    m: nat,
    p: int,
    more: bool,
    len: int,
    t: int,
    q: nat,
    rem: nat,
    num: nat,
    den: nat,
)
    requires
        den > 0,
        1 <= len,
        1 <= places,
        pow2((len - 1) as nat) <= m < pow2(len as nat),
        t == if p + len - places > 0 {
            p + len - places
        } else {
            0
        },
        p < t,
        m == pow2((t - p) as nat) * q + rem,
        rem < pow2((t - p) as nat),
        stands_for(m, p, more, num, den),
    ensures
        q < pow2(places),
        q >= pow2((places - 1) as nat) || t == 0,
        q * pow2(t as nat) * den <= num < (q + 1) * pow2(t as nat) * den,
        ({
            let h = pow2((t - p - 1) as nat);
            let middle = (2 * q + 1) * pow2(t as nat) * den;
            if rem < h {
                2 * num < middle
            } else if rem > h || more {
                2 * num > middle
            } else {
                2 * num == middle
            }
        }),
{
    let s = t - p;
    let r = pow2(s as nat) as int;
    let h = pow2((s - 1) as nat) as int;
    let w = pow2(t as nat) as int;
    let up = raised(p) as int;
    let down = raised(-p) as int;
    let full = pow2(places) as int;
    let part = pow2((places - 1) as nat) as int;
    lemma2_to64();
    lemma_pow2_unfold(s as nat);
    lemma_pow2_pos(s as nat);
    lemma_pow2_pos((s - 1) as nat);
    lemma_pow2_pos(t as nat);
    if p >= 0 {
        lemma_pow2_pos(p as nat);
        lemma_pow2_adds(s as nat, p as nat);
    } else {
        lemma_pow2_pos((-p) as nat);
        lemma_pow2_adds(t as nat, (-p) as nat);
    }
    assert(r * up == w * down);
    // the digits that are left
    if t > 0 {
        assert(s == len - places);
        lemma_pow2_adds(s as nat, places);
        lemma_pow2_adds(s as nat, (places - 1) as nat);
        assert(q < full) by (nonlinear_arith)
            requires
                m == r * q + rem,
                m < r * full,
                r > 0,
                rem >= 0,
        ;
        assert(q >= part) by (nonlinear_arith)
            requires
                m == r * q + rem,
                m >= r * part,
                r > 0,
                rem < r,
        ;
    } else {
        lemma_pow2_adds(s as nat, places);
        if len < s + places {
            lemma_pow2_strictly_increases(len as nat, (s + places) as nat);
        }
        assert(q < full) by (nonlinear_arith)
            requires
                m == r * q + rem,
                m < r * full,
                r > 0,
                rem >= 0,
        ;
    }
    let u = up * den;
    let n = num * down;
    assert(u > 0) by (nonlinear_arith)
        requires
            up > 0,
            den > 0,
            u == up * den,
    ;
    assert(m * up * den == m * u) by (nonlinear_arith)
        requires
            u == up * den,
    ;
    assert((m + 1) * up * den == (m + 1) * u) by (nonlinear_arith)
        requires
            u == up * den,
    ;
    // n lies between m * u and (m + 1) * u; w * den * down is r * u
    assert(w * den * down == r * u) by (nonlinear_arith)
        requires
            r * up == w * down,
            u == up * den,
    ;
    let wd = w * den;
    assert(q * w * den == q * wd) by (nonlinear_arith)
        requires
            wd == w * den,
    ;
    assert((q + 1) * w * den == (q + 1) * wd) by (nonlinear_arith)
        requires
            wd == w * den,
    ;
    assert((2 * q + 1) * w * den == (2 * q + 1) * wd) by (nonlinear_arith)
        requires
            wd == w * den,
    ;
    assert(m * u == q * (r * u) + rem * u) by (nonlinear_arith)
        requires
            m == r * q + rem,
    ;
    assert((m + 1) * u == m * u + u) by (nonlinear_arith);
    assert(q * wd * down == q * (r * u)) by (nonlinear_arith)
        requires
            wd * down == r * u,
    ;
    assert((q + 1) * wd * down == q * (r * u) + r * u) by (nonlinear_arith)
        requires
            wd * down == r * u,
    ;
    assert((2 * q + 1) * wd * down == 2 * (q * (r * u)) + 2 * (h * u)) by (nonlinear_arith)
        requires
            wd * down == r * u,
            r == 2 * h,
    ;
    assert(0 <= rem * u) by (nonlinear_arith)
        requires
            rem >= 0,
            u > 0,
    ;
    assert(rem * u + u <= r * u) by (nonlinear_arith)
        requires
            rem + 1 <= r,
            u > 0,
    ;
    lemma_compare(q * wd, num as int, down);
    lemma_compare((q + 1) * wd, num as int, down);
    lemma_compare((2 * q + 1) * wd, 2 * num as int, down);
    assert(2 * num * down == 2 * n) by (nonlinear_arith)
        requires
            n == num * down,
    ;
    if rem < h {
        assert(rem * u + u <= h * u) by (nonlinear_arith)
            requires
                rem + 1 <= h,
                u > 0,
        ;
    } else if rem > h {
        assert(rem * u >= h * u + u) by (nonlinear_arith)
            requires
                rem >= h + 1,
                u > 0,
        ;
    }
}

/// A common factor does not matter in a comparison.
pub proof fn lemma_compare(a: int, b: int, c: int)
    requires
        c > 0,
    ensures
        a * c < b * c <==> a < b,
        a * c == b * c <==> a == b,
{
    assert(a * c < b * c <==> a < b) by (nonlinear_arith)
        requires
            c > 0,
    ;
    assert(a * c == b * c <==> a == b) by (nonlinear_arith)
        requires
            c > 0,
    ;
}

/// A magnitude as a whole number of less than 54 binary digits times a power of two.
pub fn split(mag: u64) -> (r: (u64, i32))
    requires
        mag < INFINITE,
    ensures
        r.0 < 2 * HIDDEN,
        0 <= r.1 <= 2045,
        r.0 >= HIDDEN || r.1 == 0,
        scaled(mag) == r.0 * pow2(r.1 as nat),
        mag > 0 ==> r.0 > 0,
{
    let exponent: u64 = mag / HIDDEN;
    let fraction: u64 = mag % HIDDEN;
    if exponent == 0 {
        proof {
            lemma2_to64();
        }
        (fraction, 0)
    } else {
        (HIDDEN + fraction, exponent as i32 - 1)
    }
}

/// What a double can hold exactly is its own nearest double.
pub proof fn lemma_exact_is_nearest(mag: u64, num: nat, den: nat)
    requires
        den > 0,
        mag <= INFINITE,
        scaled(mag) * den == num,
    ensures
        is_nearest(mag, num, den),
        nearest(num, den) == mag,
{
    let v = scaled(mag) as int;
    if mag < INFINITE {
        let up = scaled((mag + 1) as u64) as int;
        lemma_scaled_increases(mag, (mag + 1) as u64);
        assert(2 * (v * den) < (v + up) * den) by (nonlinear_arith)
            requires
                v < up,
                den > 0,
        ;
    }
    if mag > 0 {
        let down = scaled((mag - 1) as u64) as int;
        lemma_scaled_increases((mag - 1) as u64, mag);
        assert((down + v) * den < 2 * (v * den)) by (nonlinear_arith)
            requires
                down < v,
                den > 0,
        ;
    }
    assert(is_nearest(mag, num, den));
    lemma_nearest_is_unique(mag, nearest(num, den), num, den);
}

} // verus!
