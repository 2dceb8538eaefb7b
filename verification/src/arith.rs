//! Sums, differences, products and quotients of double-precision numbers, each the double
//! nearest to the exact result.
use crate::double::{lemma_scaled_increases, scaled, Double, HIDDEN, INFINITE, SIGN};
use crate::rounding::{lemma_compare, nearest, power, raised, round, split, stands_for};
use vstd::arithmetic::div_mod::lemma_fundamental_div_mod;
use vstd::arithmetic::power2::{
    lemma2_to64, lemma2_to64_rest, lemma_pow2_adds, lemma_pow2_pos, lemma_pow2_strictly_increases,
    lemma_pow2_unfold, pow2,
};
use vstd::prelude::*;

verus! {

/// The bits of the number that stands for the result of an invalid operation.
pub const INVALID: u64 = 0x7FF8_0000_0000_0000;

/// The double with a sign and a magnitude.
pub open spec fn signed(negative: bool, mag: u64) -> Double {
    Double {
        bits: if negative {
            (SIGN + mag) as u64
        } else {
            mag
        },
    }
}

pub(crate) fn with_sign(negative: bool, mag: u64) -> (r: Double)
    requires
        mag <= INVALID,
    ensures
        r == signed(negative, mag),
{
    if negative {
        Double { bits: SIGN + mag }
    } else {
        Double { bits: mag }
    }
}

/// `a * b`.
pub open spec fn product(a: Double, b: Double) -> Double {
    let negative = a.negative() != b.negative();
    if a.nan() || b.nan() {
        signed(false, INVALID)
    } else if a.magnitude() == INFINITE || b.magnitude() == INFINITE {
        if a.magnitude() == 0 || b.magnitude() == 0 {
            signed(false, INVALID)
        } else {
            signed(negative, INFINITE)
        }
    } else {
        signed(negative, nearest(scaled(a.magnitude()) * scaled(b.magnitude()), pow2(1074)))
    }
}

/// `a / b`.
pub open spec fn quotient(a: Double, b: Double) -> Double {
    let negative = a.negative() != b.negative();
    if a.nan() || b.nan() {
        signed(false, INVALID)
    } else if a.magnitude() == INFINITE {
        if b.magnitude() == INFINITE {
            signed(false, INVALID)
        } else {
            signed(negative, INFINITE)
        }
    } else if b.magnitude() == INFINITE {
        signed(negative, 0)
    } else if b.magnitude() == 0 {
        if a.magnitude() == 0 {
            signed(false, INVALID)
        } else {
            signed(negative, INFINITE)
        }
    } else {
        signed(negative, nearest(scaled(a.magnitude()) * pow2(1074), scaled(b.magnitude())))
    }
}

/// `a + b`.
pub open spec fn sum(a: Double, b: Double) -> Double {
    if a.nan() || b.nan() {
        signed(false, INVALID)
    } else if a.magnitude() == INFINITE {
        if b.magnitude() == INFINITE && a.negative() != b.negative() {
            signed(false, INVALID)
        } else {
            a
        }
    } else if b.magnitude() == INFINITE {
        b
    } else {
        let v = a.value() + b.value();
        if v == 0 {
            signed(a.negative() && b.negative(), 0)
        } else if v < 0 {
            signed(true, nearest((-v) as nat, 1))
        } else {
            signed(false, nearest(v as nat, 1))
        }
    }
}

/// `-a`.
pub open spec fn negated(a: Double) -> Double {
    signed(!a.negative(), a.magnitude())
}

/// `a - b`.
pub open spec fn difference(a: Double, b: Double) -> Double {
    sum(a, negated(b))
}

/// The whole number that is left of a number when its fraction is cut off. What is
/// not a number gives 0.
pub open spec fn whole_part(a: Double) -> int {
    if a.nan() {
        0
    } else if a.negative() {
        -((scaled(a.magnitude()) / pow2(1074)) as int)
    } else {
        (scaled(a.magnitude()) / pow2(1074)) as int
    }
}

/// A whole number, or the nearest one that lies between two bounds.
pub open spec fn saturated(v: int, lo: int, hi: int) -> int {
    if v < lo {
        lo
    } else if v > hi {
        hi
    } else {
        v
    }
}

/// The double nearest to the whole number `n`.
pub open spec fn whole(n: int) -> Double {
    if n < 0 {
        signed(true, nearest(((-n) as nat) * pow2(1074), 1))
    } else {
        signed(false, nearest((n as nat) * pow2(1074), 1))
    }
}

impl Double {
    /// `self * other`.
    pub fn times(self, other: Double) -> (r: Double)
        ensures
            r == product(self, other),
    {
        let negative = (self.bits >= SIGN) != (other.bits >= SIGN);
        let x: u64 = self.bits % SIGN;
        let y: u64 = other.bits % SIGN;
        if x > INFINITE || y > INFINITE {
            return with_sign(false, INVALID);
        }
        if x == INFINITE || y == INFINITE {
            if x == 0 || y == 0 {
                return with_sign(false, INVALID);
            }
            return with_sign(negative, INFINITE);
        }
        let (m, s) = split(x);
        let (n, t) = split(y);
        let ghost num = scaled(x) * scaled(y);
        proof {
            assert(m * n < 0x400_0000_0000_0000_0000_0000_0000) by (nonlinear_arith)
                requires
                    m < 2 * HIDDEN,
                    n < 2 * HIDDEN,
            ;
            lemma_pow2_pos(1074);
            lemma_product(m as nat, s as nat, n as nat, t as nat, num);
        }
        let mag = round(m as u128 * n as u128, s + t - 1074, false, Ghost(num), Ghost(pow2(1074)));
        with_sign(negative, mag)
    }
}

proof fn lemma_product(m: nat, s: nat, n: nat, t: nat, num: nat)
    requires
        num == (m * pow2(s)) * (n * pow2(t)),
    ensures
        stands_for(m * n, s + t - 1074, false, num, pow2(1074)),
{
    let p = s + t - 1074;
    let k = (m * n) as int;
    let u = pow2(s + t) as int;
    lemma2_to64();
    lemma_pow2_adds(s, t);
    assert(num == k * u) by (nonlinear_arith)
        requires
            num == (m * pow2(s)) * (n * pow2(t)),
            k == m * n,
            u == pow2(s) * pow2(t),
    ;
    if p >= 0 {
        let v = pow2(p as nat) as int;
        lemma_pow2_adds(p as nat, 1074);
        assert(k * v * pow2(1074) == k * (v * pow2(1074))) by (nonlinear_arith);
        assert(num * raised(-p) == num);
    } else {
        let v = pow2((-p) as nat) as int;
        lemma_pow2_adds(s + t, (-p) as nat);
        assert((k * u) * v == k * 1 * (u * v)) by (nonlinear_arith);
        assert(u * v == pow2(1074));
        assert(num * raised(-p) == (k * u) * v);
    }
}

impl Double {
    /// `self / other`.
    pub fn over(self, other: Double) -> (r: Double)
        ensures
            r == quotient(self, other),
    {
        let negative = (self.bits >= SIGN) != (other.bits >= SIGN);
        let x: u64 = self.bits % SIGN;
        let y: u64 = other.bits % SIGN;
        if x > INFINITE || y > INFINITE {
            return with_sign(false, INVALID);
        }
        if x == INFINITE {
            if y == INFINITE {
                return with_sign(false, INVALID);
            }
            return with_sign(negative, INFINITE);
        }
        if y == INFINITE {
            return with_sign(negative, 0);
        }
        if y == 0 {
            if x == 0 {
                return with_sign(false, INVALID);
            }
            return with_sign(negative, INFINITE);
        }
        let (m, s) = split(x);
        let (n, t) = split(y);
        let ghost num = scaled(x) * pow2(1074);
        let ghost den = scaled(y);
        proof {
            lemma_pow2_pos(t as nat);
            assert(den > 0) by (nonlinear_arith)
                requires
                    den == n * pow2(t as nat),
                    n > 0,
                    pow2(t as nat) > 0,
            ;
        }
        if m == 0 {
            proof {
                assert(0 * pow2(s as nat) == 0);
                assert(num == 0) by (nonlinear_arith)
                    requires
                        num == 0 * pow2(1074),
                ;
                assert(0 * raised(0) * den == 0) by (nonlinear_arith);
                assert(num * raised(-0) == 0);
            }
            return with_sign(negative, round(0, 0, false, Ghost(num), Ghost(den)));
        }
        let (w, k) = grown(m);
        proof {
            lemma2_to64();
            lemma2_to64_rest();
            lemma_pow2_adds(64, 10);
        }
        let wide: u128 = w as u128 * 0x400_0000_0000_0000_0000;
        let q: u128 = wide / n as u128;
        let rem: u128 = wide % n as u128;
        proof {
            lemma_fundamental_div_mod(wide as int, n as int);
            assert(q >= 0x40_0000_0000_0000) by (nonlinear_arith)
                requires
                    wide == n * q + rem,
                    rem < n,
                    n < 2 * HIDDEN,
                    wide >= HIDDEN * 0x400_0000_0000_0000_0000,
            ;
            assert(q <= wide) by (nonlinear_arith)
                requires
                    wide == n * q + rem,
                    n >= 1,
                    q >= 0,
                    rem >= 0,
            ;
            lemma_quotient(
                m as nat,
                s as nat,
                n as nat,
                t as nat,
                k as nat,
                q as nat,
                rem as nat,
                num,
                den,
            );
        }
        let mag = round(q, s - t + 1000 - k, rem > 0, Ghost(num), Ghost(den));
        with_sign(negative, mag)
    }
}

/// Moves the leading digit of `m` up to the highest place of a double.
fn grown(m: u64) -> (r: (u64, i32))
    requires
        0 < m < 2 * HIDDEN,
    ensures
        HIDDEN <= r.0 < 2 * HIDDEN,
        0 <= r.1 <= 52,
        r.0 == m * pow2(r.1 as nat),
{
    let mut w: u64 = m;
    let mut k: i32 = 0;
    proof {
        lemma2_to64();
        assert(m * pow2(0) == m);
    }
    while w < HIDDEN
        invariant
            0 < m,
            0 < w < 2 * HIDDEN,
            0 <= k <= 52,
            w == m * pow2(k as nat),
        decreases 2 * HIDDEN - w,
    {
        proof {
            if k == 52 {
                lemma2_to64_rest();
                assert(m * pow2(52) >= pow2(52)) by (nonlinear_arith)
                    requires
                        m > 0,
                ;
            }
            lemma_pow2_unfold((k + 1) as nat);
            assert(m * (2 * pow2(k as nat)) == 2 * (m * pow2(k as nat))) by (nonlinear_arith);
        }
        w = w * 2;
        k = k + 1;
    }
    (w, k)
}

proof fn lemma_quotient(
    m: nat,
    s: nat,
    n: nat,
    t: nat,
    k: nat,
    q: nat,
    rem: nat,
    num: nat,
    den: nat,
)
    requires
        n > 0,
        rem < n,
        m * pow2(k) * pow2(74) == n * q + rem,
        num == (m * pow2(s)) * pow2(1074),
        den == n * pow2(t),
    ensures
        stands_for(q, s - t + 1000 - k, rem > 0, num, den),
{
    let p = s - t + 1000 - k;
    let up = raised(p) as int;
    let down = raised(-p) as int;
    lemma2_to64();
    lemma_pow2_adds(k, 74);
    lemma_pow2_adds(s, 1074);
    let f = pow2(k + 74) as int;
    let g = pow2(s + 1074) as int;
    let a = n * q + rem;
    assert(m * f == a) by (nonlinear_arith)
        requires
            m * pow2(k) * pow2(74) == a,
            f == pow2(k) * pow2(74),
    ;
    assert(num * f == a * g) by (nonlinear_arith)
        requires
            num == (m * pow2(s)) * pow2(1074),
            m * f == a,
            g == pow2(s) * pow2(1074),
    ;
    let e = if p >= 0 {
        s as int + 1074
    } else {
        s + 1074 - p
    };
    let z = pow2(e as nat) as int;
    lemma_pow2_pos(e as nat);
    lemma_pow2_pos(k + 74);
    // the same power of two on both sides
    assert(g * down == z && up * pow2(t) * f == z) by {
        if p >= 0 {
            lemma_pow2_adds(p as nat, t);
            lemma_pow2_adds((p + t) as nat, k + 74);
            if p == 0 {
                assert(down == 1);
            }
        } else {
            lemma_pow2_adds(s + 1074, (-p) as nat);
            lemma_pow2_adds(t, k + 74);
            assert(1 * pow2(t) == pow2(t));
        }
    }
    assert((num * down) * f == a * z) by (nonlinear_arith)
        requires
            num * f == a * g,
            g * down == z,
    ;
    assert((q * up * den) * f == (q * n) * z) by (nonlinear_arith)
        requires
            den == n * pow2(t),
            up * pow2(t) * f == z,
    ;
    assert(((q + 1) * up * den) * f == ((q + 1) * n) * z) by (nonlinear_arith)
        requires
            den == n * pow2(t),
            up * pow2(t) * f == z,
    ;
    assert(q * n == n * q) by (nonlinear_arith);
    assert((q + 1) * n == n * q + n) by (nonlinear_arith);
    lemma_compare((q * n) as int, a as int, z);
    lemma_compare(a as int, ((q + 1) * n) as int, z);
    lemma_compare(q * up * den, num * down, f);
    lemma_compare(num * down, (q + 1) * up * den, f);
}

/// The double nearest to the sum or the difference of two magnitudes, the first of
/// which is not the smaller one.
fn combine(x: u64, y: u64, subtract: bool) -> (mag: u64)
    requires
        y <= x < INFINITE,
    ensures
        mag <= INFINITE,
        subtract ==> mag == nearest((scaled(x) - scaled(y)) as nat, 1),
        !subtract ==> mag == nearest(scaled(x) + scaled(y), 1),
{
    let (m, s) = split(x);
    let (n, t) = split(y);
    let ghost num: nat = if subtract {
        (scaled(x) - scaled(y)) as nat
    } else {
        scaled(x) + scaled(y)
    };
    proof {
        if y < x {
            lemma_scaled_increases(y, x);
        }
        lemma_split_order(x, y, m, s, n, t);
    }
    let d: i32 = s - t;
    if d <= 64 {
        let f = power(d as u32);
        proof {
            lemma_aligned(m as nat, n as nat, t as nat, d as nat, subtract, num);
            lemma2_to64();
            if d < 64 {
                lemma_pow2_strictly_increases(d as nat, 64);
            }
            assert(m * f <= (2 * HIDDEN) * 0x1_0000_0000_0000_0000) by (nonlinear_arith)
                requires
                    m < 2 * HIDDEN,
                    f <= 0x1_0000_0000_0000_0000,
            ;
        }
        let a: u128 = m as u128 * f;
        let v: u128 = if subtract {
            a - n as u128
        } else {
            a + n as u128
        };
        round(v, t, false, Ghost(num), Ghost(1))
    } else {
        let g: i32 = d - 64;
        let (high, low): (u64, bool) = if g >= 64 {
            (0, n > 0)
        } else {
            let f = power(g as u32);
            proof {
                lemma_pow2_pos(g as nat);
            }
            ((n as u128 / f) as u64, n as u128 % f > 0)
        };
        let ghost rem = n - high * pow2(g as nat);
        proof {
            lemma2_to64();
            lemma2_to64_rest();
            if g >= 64 {
                if g > 64 {
                    lemma_pow2_strictly_increases(64, g as nat);
                }
            } else {
                lemma_fundamental_div_mod(n as int, pow2(g as nat) as int);
                assert(pow2(g as nat) * high == high * pow2(g as nat)) by (nonlinear_arith);
                assert(high <= n) by (nonlinear_arith)
                    requires
                        high * pow2(g as nat) <= n,
                        pow2(g as nat) > 0,
                        high >= 0,
                ;
            }
            lemma_apart(
                m as nat,
                n as nat,
                t as nat,
                g as nat,
                high as nat,
                rem as nat,
                subtract,
                num,
            );
        }
        let a: u128 = m as u128 * 0x1_0000_0000_0000_0000;
        let v: u128 = if !subtract {
            a + high as u128
        } else if low {
            a - high as u128 - 1
        } else {
            a - high as u128
        };
        round(v, s - 64, low, Ghost(num), Ghost(1))
    }
}

proof fn lemma_split_order(x: u64, y: u64, m: u64, s: i32, n: u64, t: i32)
    requires
        y <= x < INFINITE,
        m < 2 * HIDDEN,
        n < 2 * HIDDEN,
        0 <= s <= 2045,
        0 <= t <= 2045,
        m >= HIDDEN || s == 0,
        n >= HIDDEN || t == 0,
        scaled(x) == m * pow2(s as nat),
        scaled(y) == n * pow2(t as nat),
    ensures
        t <= s,
        t == s ==> n <= m,
{
    if y < x {
        lemma_scaled_increases(y, x);
    }
    let a = pow2(s as nat) as int;
    let b = pow2(t as nat) as int;
    lemma_pow2_pos(s as nat);
    if s < t {
        lemma_pow2_unfold((s + 1) as nat);
        if s + 1 < t {
            lemma_pow2_strictly_increases((s + 1) as nat, t as nat);
        }
        assert(m * a < n * b) by (nonlinear_arith)
            requires
                m < 2 * HIDDEN,
                n >= HIDDEN,
                2 * a <= b,
                a > 0,
        ;
    } else if s == t && m < n {
        assert(m * a < n * a) by (nonlinear_arith)
            requires
                m < n,
                a > 0,
        ;
    }
}

proof fn lemma_aligned(m: nat, n: nat, t: nat, d: nat, subtract: bool, num: nat)
    requires
        num == if subtract {
            m * pow2(t + d) - n * pow2(t)
        } else {
            (m * pow2(t + d) + n * pow2(t)) as int
        },
    ensures
        subtract ==> n <= m * pow2(d),
        subtract ==> stands_for((m * pow2(d) - n) as nat, t as int, false, num, 1),
        !subtract ==> stands_for(m * pow2(d) + n, t as int, false, num, 1),
{
    let u = pow2(t) as int;
    let a = (m * pow2(d)) as int;
    lemma2_to64();
    lemma_pow2_pos(t);
    lemma_pow2_adds(t, d);
    assert(m * pow2(t + d) == a * u) by (nonlinear_arith)
        requires
            a == m * pow2(d),
            pow2(t + d) == u * pow2(d),
    ;
    assert(a * u - n * u == (a - n) * u) by (nonlinear_arith);
    assert(a * u + n * u == (a + n) * u) by (nonlinear_arith);
    assert(num * raised(-(t as int)) == num) by {
        assert(num * 1 == num);
    }
    if subtract {
        lemma_compare(a, n as int, u);
        assert((a - n) * u * 1 == (a - n) * u);
    } else {
        assert((a + n) * u * 1 == (a + n) * u);
    }
}

proof fn lemma_apart(
    m: nat,
    n: nat,
    t: nat,
    g: nat,
    high: nat,
    rem: nat,
    subtract: bool,
    num: nat,
)
    requires
        g > 0,
        n == high * pow2(g) + rem,
        rem < pow2(g),
        num == if subtract {
            m * pow2(t + g + 64) - n * pow2(t)
        } else {
            (m * pow2(t + g + 64) + n * pow2(t)) as int
        },
        m * 0x1_0000_0000_0000_0000 > high + 1,
    ensures
        ({
            let a = (m * 0x1_0000_0000_0000_0000) as int;
            let v = if !subtract {
                a + high
            } else if rem > 0 {
                a - high - 1
            } else {
                a - high
            };
            stands_for(v as nat, (t + g) as int, rem > 0, num, 1)
        }),
{
    let p = pow2(t + g) as int;
    let u = pow2(t) as int;
    let a = m * 0x1_0000_0000_0000_0000;
    lemma2_to64();
    lemma_pow2_pos(t);
    lemma_pow2_adds(t, g);
    lemma_pow2_adds(t + g, 64);
    let r = rem * u;
    assert(m * pow2(t + g + 64) == a * p) by (nonlinear_arith)
        requires
            pow2(t + g + 64) == p * 0x1_0000_0000_0000_0000,
            a == m * 0x1_0000_0000_0000_0000,
    ;
    assert(n * u == high * p + r) by (nonlinear_arith)
        requires
            n == high * pow2(g) + rem,
            p == u * pow2(g),
            r == rem * u,
    ;
    assert(r < p) by (nonlinear_arith)
        requires
            rem < pow2(g),
            r == rem * u,
            p == u * pow2(g),
            u > 0,
    ;
    assert(rem > 0 ==> r > 0) by (nonlinear_arith)
        requires
            r == rem * u,
            u > 0,
    ;
    assert(rem == 0 ==> r == 0) by (nonlinear_arith)
        requires
            r == rem * u,
    ;
    assert(num * raised(-((t + g) as int)) == num) by {
        assert(num * 1 == num);
    }
    assert(a * p + high * p == (a + high) * p) by (nonlinear_arith);
    assert((a + high + 1) * p == (a + high) * p + p) by (nonlinear_arith);
    assert(a * p - high * p == (a - high) * p) by (nonlinear_arith);
    assert((a - high - 1) * p == (a - high) * p - p) by (nonlinear_arith);
}

impl Double {
    /// `self + other`.
    pub fn plus(self, other: Double) -> (r: Double)
        ensures
            r == sum(self, other),
    {
        let x: u64 = self.bits % SIGN;
        let y: u64 = other.bits % SIGN;
        let below = self.bits >= SIGN;
        let other_below = other.bits >= SIGN;
        if x > INFINITE || y > INFINITE {
            return with_sign(false, INVALID);
        }
        if x == INFINITE {
            if y == INFINITE && below != other_below {
                return with_sign(false, INVALID);
            }
            return self;
        }
        if y == INFINITE {
            return other;
        }
        proof {
            if x < y {
                lemma_scaled_increases(x, y);
            } else if y < x {
                lemma_scaled_increases(y, x);
            }
            if x > 0 {
                lemma_scaled_increases(0, x);
            }
            if y > 0 {
                lemma_scaled_increases(0, y);
            }
            assert(scaled(0) == 0);
        }
        if below == other_below {
            if x == 0 && y == 0 {
                return with_sign(below, 0);
            }
            if x >= y {
                with_sign(below, combine(x, y, false))
            } else {
                with_sign(below, combine(y, x, false))
            }
        } else if x == y {
            with_sign(false, 0)
        } else if x > y {
            with_sign(below, combine(x, y, true))
        } else {
            with_sign(other_below, combine(y, x, true))
        }
    }

    /// `self - other`.
    pub fn minus(self, other: Double) -> (r: Double)
        ensures
            r == difference(self, other),
    {
        self.plus(other.negate())
    }
}

} // verus!
