//! Square roots of doubles, rounded to nearest as IEEE 754 asks.
use crate::arith::{signed, INVALID};
use crate::double::{lemma_scaled_increases, scaled, Double, HIDDEN, INFINITE, SIGN};
use crate::rounding::split;
use vstd::arithmetic::div_mod::lemma_fundamental_div_mod_converse;
use vstd::arithmetic::power2::{
    lemma2_to64, lemma_pow2_adds, lemma_pow2_pos, lemma_pow2_unfold, pow2,
};
use vstd::prelude::*;

verus! {

/// Whether `mag` is the magnitude of the double nearest to the root of `n`, in units.
pub open spec fn is_root(mag: u64, n: nat) -> bool {
    &&& mag < INFINITE
    &&& {
        let middle = scaled(mag) + scaled((mag + 1) as u64);
        4 * n < middle * middle || (4 * n == middle * middle && mag % 2 == 0)
    }
    &&& mag > 0 ==> {
        let middle = scaled((mag - 1) as u64) + scaled(mag);
        4 * n > middle * middle || (4 * n == middle * middle && mag % 2 == 0)
    }
}

/// The magnitude of the double nearest to the root of `n`, in units.
pub open spec fn nearest_root(n: nat) -> u64 {
    choose|mag: u64| is_root(mag, n)
}

/// The square root. What is below zero has none; zero keeps its sign.
pub open spec fn root(a: Double) -> Double {
    if a.nan() {
        signed(false, INVALID)
    } else if a.magnitude() == 0 {
        a
    } else if a.negative() {
        signed(false, INVALID)
    } else if a.magnitude() == INFINITE {
        a
    } else {
        // the root of a unit is 2^537 units
        signed(false, nearest_root(scaled(a.magnitude()) * pow2(1074)))
    }
}

/// There is but one nearest root.
proof fn lemma_root_is_unique(a: u64, b: u64, n: nat)
    requires
        is_root(a, n),
        is_root(b, n),
        a <= b,
    ensures
        a == b,
{
    if a < b {
        let u = scaled(a) + scaled((a + 1) as u64);
        let v = scaled((b - 1) as u64) + scaled(b);
        if a + 1 < b {
            lemma_scaled_increases(a, (b - 1) as u64);
            lemma_scaled_increases((a + 1) as u64, b);
            assert(u * u < v * v) by (nonlinear_arith)
                requires
                    u < v,
            ;
        }
    }
}

/// The largest whole number whose square is not above `m`.
fn whole_root(m: u128) -> (r: u64)
    requires
        m < 0x4000_0000_0000_0000_0000_0000_0000,
    ensures
        r * r <= m < (r + 1) * (r + 1),
        r < 0x80_0000_0000_0000,
{
    let mut r: u128 = 0;
    let mut step: u128 = 0x80_0000_0000_0000;
    let mut i: u32 = 55;
    proof {
        lemma2_to64();
        lemma2_to55();
    }
    while i > 0
        invariant
            i <= 55,
            step == pow2(i as nat),
            r + step <= 0x80_0000_0000_0000,
            r * r <= m < (r + step) * (r + step),
        decreases i,
    {
        proof {
            lemma_pow2_unfold(i as nat);
            lemma_pow2_pos((i - 1) as nat);
        }
        let half: u128 = step / 2;
        let c: u128 = r + half;
        assert(c * c < 0x4000_0000_0000_0000_0000_0000_0000) by (nonlinear_arith)
            requires
                c < 0x80_0000_0000_0000,
        ;
        if c * c <= m {
            r = c;
        }
        step = half;
        i = i - 1;
    }
    proof {
        lemma2_to64();
        assert(step == 1);
    }
    r as u64
}

/// The root of a square is exact.
pub proof fn law_roots_of_squares_are_exact(a: Double, r: Double)
    requires
        !a.negative(),
        a.finite(),
        !r.negative(),
        0 < r.magnitude() < INFINITE,
        scaled(a.magnitude()) * pow2(1074) == scaled(r.magnitude()) * scaled(r.magnitude()),
    ensures
        root(a) == r,
{
    let mag = r.magnitude();
    let n = scaled(a.magnitude()) * pow2(1074);
    let v = scaled(mag) as int;
    let up = scaled((mag + 1) as u64) as int;
    let down = scaled((mag - 1) as u64) as int;
    lemma_scaled_increases(mag, (mag + 1) as u64);
    lemma_scaled_increases((mag - 1) as u64, mag);
    assert(4 * n < (v + up) * (v + up)) by (nonlinear_arith)
        requires
            n == v * v,
            0 <= v < up,
    ;
    assert(4 * n > (down + v) * (down + v)) by (nonlinear_arith)
        requires
            n == v * v,
            0 <= down < v,
    ;
    assert(is_root(mag, n));
    let got = nearest_root(n);
    assert(is_root(got, n));
    if got <= mag {
        lemma_root_is_unique(got, mag, n);
    } else {
        lemma_root_is_unique(mag, got, n);
    }
    if a.magnitude() == 0 {
        assert(scaled(0) == 0);
        assert(0 * pow2(1074) == 0);
        assert(v * v > 0) by (nonlinear_arith)
            requires
                v > 0,
        ;
    }
}

proof fn lemma2_to55()
    ensures
        pow2(52) == HIDDEN,
        pow2(55) == 0x80_0000_0000_0000,
{
    lemma2_to64();
    lemma_pow2_adds(32, 20);
    lemma_pow2_adds(32, 23);
}

/// The magnitude with the leading digits `k`, in steps of 2^`p`.
proof fn lemma_scaled_of_parts(p: nat, k: nat)
    requires
        HIDDEN <= k <= 2 * HIDDEN,
        p <= 2000,
    ensures
        p * HIDDEN + k < INFINITE,
        scaled((p * HIDDEN + k) as u64) == k * pow2(p),
        scaled((p * HIDDEN + k + 1) as u64) >= (k + 1) * pow2(p),
        k < 2 * HIDDEN ==> scaled((p * HIDDEN + k + 1) as u64) == (k + 1) * pow2(p),
{
    let h = HIDDEN as int;
    let mag = p * h + k;
    lemma_pow2_unfold(p + 1);
    lemma_pow2_pos(p);
    if k < 2 * h {
        lemma_fundamental_div_mod_converse(mag, h, p as int + 1, k - h);
    } else {
        lemma_fundamental_div_mod_converse(mag, h, p as int + 2, 0);
        assert(h * (2 * pow2(p)) == (2 * h) * pow2(p)) by (nonlinear_arith);
    }
    if k + 1 < 2 * h {
        lemma_fundamental_div_mod_converse(mag + 1, h, p as int + 1, k + 1 - h);
    } else if k + 1 == 2 * h {
        lemma_fundamental_div_mod_converse(mag + 1, h, p as int + 2, 0);
        assert(h * (2 * pow2(p)) == (2 * h) * pow2(p)) by (nonlinear_arith);
    } else {
        lemma_fundamental_div_mod_converse(mag + 1, h, p as int + 2, 1);
        assert((h + 1) * (2 * pow2(p)) >= (2 * h + 1) * pow2(p)) by (nonlinear_arith)
            requires
                pow2(p) > 0,
        ;
    }
}

/// Whether the root of `big`, the whole part of which is `r`, is rounded up to a
/// multiple of four.
spec fn rounds_up(big: nat, r: nat) -> bool {
    r % 4 == 3 || (r % 4 == 2 && (big > r * r || (r / 4) % 2 == 1))
}

/// Rounding the root of a number with twice as many digits and more.
proof fn lemma_root_rounds(big: nat, r: nat, t: nat, k: nat, n: nat)
    requires
        0x40_0000_0000_0000 <= r < 0x80_0000_0000_0000,
        r * r <= big < (r + 1) * (r + 1),
        n == big * (pow2(t) * pow2(t)),
        k == r / 4 + if rounds_up(big, r) {
            1nat
        } else {
            0nat
        },
        t + 2 <= 2000,
    ensures
        (t + 2) * HIDDEN + k < INFINITE,
        is_root(((t + 2) * HIDDEN + k) as u64, n),
{
    let q = (r / 4) as int;
    let low = (r % 4) as int;
    let one = pow2(t) as int;
    let p = (t + 2) as nat;
    let mag = (p * HIDDEN + k) as u64;
    lemma_pow2_pos(t);
    lemma_pow2_unfold((t + 1) as nat);
    lemma_pow2_unfold(p);
    let four = pow2(p) as int;
    assert(four == 4 * one);
    lemma_scaled_of_parts(p, k);
    assert(mag % 2 == k % 2) by (nonlinear_arith)
        requires
            mag == p * 0x10_0000_0000_0000 + k,
    ;
    // below the middle to the next
    let u = (scaled(mag) + scaled((mag + 1) as u64)) as int;
    let c = 4 * (k as int) + 2;
    assert(u >= 2 * (c * one)) by (nonlinear_arith)
        requires
            u >= k * four + (k + 1) * four,
            four == 4 * one,
            c == 4 * k + 2,
    ;
    assert(r == 4 * q + low);
    if rounds_up(big, r) || low <= 1 {
        assert(r + 1 <= c);
        assert((r + 1) * (r + 1) <= c * c) by (nonlinear_arith)
            requires
                r + 1 <= c,
        ;
        lemma_squares(big as int, c, one, n as int);
        assert(4 * n < u * u) by (nonlinear_arith)
            requires
                4 * n < (2 * (c * one)) * (2 * (c * one)),
                u >= 2 * (c * one),
                c * one >= 0,
        ;
    } else {
        assert(low == 2 && big == r * r && q % 2 == 0);
        assert(c == r);
        lemma_squares(big as int, c, one, n as int);
        if k < 2 * HIDDEN {
            assert(u == 2 * (c * one)) by (nonlinear_arith)
                requires
                    u == k * four + (k + 1) * four,
                    four == 4 * one,
                    c == 4 * k + 2,
            ;
        } else {
            assert(q < 2 * HIDDEN);
        }
    }
    // above the middle to the one before
    let v = (scaled((mag - 1) as u64) + scaled(mag)) as int;
    if k > HIDDEN {
        lemma_scaled_of_parts(p, (k - 1) as nat);
        assert((mag - 1) as u64 == (p * HIDDEN + (k - 1) as nat) as u64);
        let b = 4 * (k as int) - 2;
        assert(v == 2 * (b * one)) by (nonlinear_arith)
            requires
                v == (k - 1) * four + k * four,
                four == 4 * one,
                b == 4 * k - 2,
        ;
        lemma_squares(big as int, b, one, n as int);
        if b < r {
            assert(b * b < r * r) by (nonlinear_arith)
                requires
                    0 <= b < r,
            ;
        } else {
            assert(b == r);
            assert(rounds_up(big, r) && low == 2);
        }
    } else {
        // not rounded up: the root is not below the double itself
        lemma_scaled_increases((mag - 1) as u64, mag);
        assert(k == q);
        let b = 4 * (k as int);
        assert(b * b <= r * r) by (nonlinear_arith)
            requires
                0 <= b <= r,
        ;
        lemma_squares(big as int, b, one, n as int);
        let s = scaled(mag) as int;
        assert(2 * s == 2 * (b * one)) by (nonlinear_arith)
            requires
                s == k * four,
                four == 4 * one,
                b == 4 * k,
        ;
        assert(v * v < 4 * n) by (nonlinear_arith)
            requires
                0 <= v < 2 * (b * one),
                (2 * (b * one)) * (2 * (b * one)) <= 4 * n,
        ;
    }
}

/// A square against a number, and both times a square.
proof fn lemma_squares(big: int, c: int, one: int, n: int)
    requires
        one > 0,
        n == big * (one * one),
    ensures
        big < c * c ==> 4 * n < (2 * (c * one)) * (2 * (c * one)),
        big == c * c ==> 4 * n == (2 * (c * one)) * (2 * (c * one)),
        big > c * c ==> 4 * n > (2 * (c * one)) * (2 * (c * one)),
{
    let o = one * one;
    assert(o > 0) by (nonlinear_arith)
        requires
            o == one * one,
            one > 0,
    ;
    let d = c * c;
    assert((2 * (c * one)) * (2 * (c * one)) == 4 * (d * o)) by (nonlinear_arith)
        requires
            d == c * c,
            o == one * one,
    ;
    assert(big < d ==> big * o < d * o) by (nonlinear_arith)
        requires
            o > 0,
    ;
    assert(big > d ==> big * o > d * o) by (nonlinear_arith)
        requires
            o > 0,
    ;
}

/// Shifts `m` up to 109 or 110 digits, such that an even power of two is left of
/// `m * 2^e`, and returns half of that power.
fn aligned(m: u64, e: u32) -> (r: (u128, u32))
    requires
        0 < m < 2 * HIDDEN,
        1074 <= e <= 3119,
    ensures
        0x1000_0000_0000_0000_0000_0000_0000 <= r.0 < 0x4000_0000_0000_0000_0000_0000_0000,
        r.0 * (pow2(r.1 as nat) * pow2(r.1 as nat)) == m * pow2(e as nat),
        r.1 <= 1560,
{
    let mut big: u128 = m as u128;
    let mut left: u32 = e;
    proof {
        lemma2_to64();
        lemma_pow2_unfold(e as nat);
    }
    if e % 2 == 1 {
        big = big * 2;
        left = e - 1;
        assert((2 * m) * pow2((e - 1) as nat) == m * (2 * pow2((e - 1) as nat)))
            by (nonlinear_arith);
    }
    while big < 0x1000_0000_0000_0000_0000_0000_0000
        invariant
            0 < big < 0x4000_0000_0000_0000_0000_0000_0000,
            left % 2 == 0,
            left <= 3119,
            big * pow2(left as nat) == m * pow2(e as nat),
            big >= pow2_of(e - left),
            left <= e,
            1074 <= e,
        decreases left,
    {
        proof {
            lemma_low(big as nat, (e - left) as nat);
            lemma_pow2_unfold(left as nat);
            lemma_pow2_unfold((left - 1) as nat);
            let f = pow2((left - 2) as nat);
            assert(pow2(left as nat) == 4 * f);
            assert((4 * big) * f == big * (4 * f)) by (nonlinear_arith);
            lemma_pow2_unfold((e - left + 1) as nat);
            lemma_pow2_unfold((e - left + 2) as nat);
        }
        big = big * 4;
        left = left - 2;
    }
    let half: u32 = left / 2;
    proof {
        lemma_pow2_adds(half as nat, half as nat);
    }
    (big, half)
}

/// Two to the power of `k`.
spec fn pow2_of(k: int) -> int {
    pow2(k as nat) as int
}

/// What has few digits has not been shifted far.
proof fn lemma_low(big: nat, k: nat)
    requires
        big < 0x1000_0000_0000_0000_0000_0000_0000,
        pow2(k) <= big,
    ensures
        k < 108,
{
    lemma2_to64();
    lemma_pow2_adds(64, 32);
    lemma_pow2_adds(96, 12);
    if k >= 108 {
        lemma_pow2_adds(108, (k - 108) as nat);
        lemma_pow2_pos((k - 108) as nat);
        assert(pow2(108) * pow2((k - 108) as nat) >= pow2(108)) by (nonlinear_arith)
            requires
                pow2((k - 108) as nat) >= 1,
        ;
    }
}

impl Double {
    /// The square root.
    pub fn sqrt(self) -> (r: Double)
        ensures
            r == root(self),
    {
        let mag: u64 = self.bits % SIGN;
        if mag > INFINITE {
            return Double { bits: INVALID };
        }
        if mag == 0 {
            return self;
        }
        if self.bits >= SIGN {
            return Double { bits: INVALID };
        }
        if mag == INFINITE {
            return self;
        }
        let (m, s) = split(mag);
        let (big, t) = aligned(m, s as u32 + 1074);
        let r = whole_root(big);
        let ghost n = scaled(mag) * pow2(1074);
        proof {
            lemma_pow2_adds(s as nat, 1074);
            assert((m * pow2(s as nat)) * pow2(1074) == m * (pow2(s as nat) * pow2(1074)))
                by (nonlinear_arith);
            assert(n == big * (pow2(t as nat) * pow2(t as nat)));
            lemma_whole_root_large(big as nat, r as nat);
            assert(r * r < 0x4000_0000_0000_0000_0000_0000_0000) by (nonlinear_arith)
                requires
                    r < 0x80_0000_0000_0000,
            ;
        }
        let square: u128 = r as u128 * r as u128;
        let low: u64 = r % 4;
        let q: u64 = r / 4;
        let up = low == 3 || (low == 2 && (big > square || q % 2 == 1));
        let k: u64 = if up {
            q + 1
        } else {
            q
        };
        proof {
            lemma_root_rounds(big as nat, r as nat, t as nat, k as nat, n);
            assert((t + 2) * HIDDEN <= 1562 * HIDDEN) by (nonlinear_arith)
                requires
                    t <= 1560,
            ;
        }
        let nearest: u64 = (t as u64 + 2) * HIDDEN + k;
        proof {
            let other = nearest_root(n);
            assert(is_root(other, n));
            if other < nearest {
                lemma_root_is_unique(other, nearest, n);
            } else {
                lemma_root_is_unique(nearest, other, n);
            }
        }
        Double { bits: nearest }
    }
}

/// The root of a number with 109 digits or more has 55 digits.
proof fn lemma_whole_root_large(big: nat, r: nat)
    requires
        0x1000_0000_0000_0000_0000_0000_0000 <= big,
        big < (r + 1) * (r + 1),
    ensures
        r >= 0x40_0000_0000_0000,
{
    if r < 0x40_0000_0000_0000 {
        assert((r + 1) * (r + 1) <= 0x1000_0000_0000_0000_0000_0000_0000) by (nonlinear_arith)
            requires
                r + 1 <= 0x40_0000_0000_0000,
        ;
    }
}

} // verus!
