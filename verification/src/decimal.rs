//! The double nearest to a decimal number.
//!
//! A decimal number is a fraction of two whole numbers that may be far larger than any
//! machine number. They are held in limbs of 32 bits, the lowest one first.
use crate::arith::signed;
use crate::bounds::{lemma_nearest_at_least, lemma_nearest_exists};
use crate::double::{lemma_scaled_increases, scaled, Double, HIDDEN, INFINITE, SIGN};
use crate::rounding::{is_nearest, lemma_nearest_is_unique, nearest, split};
use vstd::arithmetic::div_mod::lemma_fundamental_div_mod_converse;
use vstd::arithmetic::power2::{
    lemma2_to64, lemma_pow2_adds, lemma_pow2_pos, lemma_pow2_strictly_increases, lemma_pow2_unfold,
    pow2,
};
use vstd::prelude::*;

verus! {

/// Ten to the power of `n`.
pub open spec fn ten_to(n: nat) -> nat
    decreases n,
{
    if n == 0 {
        1
    } else {
        10 * ten_to((n - 1) as nat)
    }
}

/// The magnitude of the double nearest to `digits` times ten to the power of `exponent`.
pub open spec fn decimal_magnitude(digits: nat, exponent: int) -> u64 {
    if exponent >= 0 {
        nearest(digits * ten_to(exponent as nat) * pow2(1074), 1)
    } else {
        nearest(digits * pow2(1074), ten_to((-exponent) as nat))
    }
}

/// The double nearest to a decimal number.
pub open spec fn decimal_double(negative: bool, digits: nat, exponent: int) -> Double {
    signed(negative, decimal_magnitude(digits, exponent))
}

/// The number that limbs hold.
pub open spec fn limbs_value(s: Seq<u32>) -> nat
    decreases s.len(),
{
    if s.len() == 0 {
        0
    } else {
        limbs_value(s.drop_last()) + s.last() as nat * pow2((32 * (s.len() - 1)) as nat)
    }
}

/// A whole number of any size.
#[derive(Debug)]
pub struct Large {
    limbs: Vec<u32>,
}

impl View for Large {
    type V = nat;

    closed spec fn view(&self) -> nat {
        limbs_value(self.limbs@)
    }
}

/// Another limb on top.
proof fn lemma_limb(s: Seq<u32>, x: u32)
    ensures
        limbs_value(s.push(x)) == limbs_value(s) + x as nat * pow2((32 * s.len()) as nat),
{
    assert(s.push(x).drop_last() =~= s);
}

/// The lowest limb, and the others.
proof fn lemma_low_limb(s: Seq<u32>)
    requires
        s.len() > 0,
    ensures
        limbs_value(s) == s[0] + 0x1_0000_0000 * limbs_value(s.skip(1)),
    decreases s.len(),
{
    lemma2_to64();
    let n = s.len();
    if n == 1 {
        assert(s.drop_last() =~= Seq::empty());
        assert(s.skip(1) =~= Seq::empty());
        assert(s.last() as nat * 1 == s[0]);
    } else {
        let init = s.drop_last();
        lemma_low_limb(init);
        assert(s.skip(1).drop_last() =~= init.skip(1));
        let unit = pow2((32 * (n - 2)) as nat) as int;
        lemma_pow2_adds((32 * (n - 2)) as nat, 32);
        assert(s.last() * (unit * 0x1_0000_0000) == 0x1_0000_0000 * (s.last() * unit))
            by (nonlinear_arith);
    }
}

/// Limbs hold less than the unit of the next one.
proof fn lemma_limbs_below(s: Seq<u32>)
    ensures
        limbs_value(s) < pow2((32 * s.len()) as nat),
    decreases s.len(),
{
    lemma2_to64();
    if s.len() > 0 {
        lemma_limbs_below(s.drop_last());
        let unit = pow2((32 * (s.len() - 1)) as nat);
        lemma_pow2_adds((32 * (s.len() - 1)) as nat, 32);
        assert(s.last() as nat * unit + unit <= unit * 0x1_0000_0000) by (nonlinear_arith)
            requires
                s.last() as nat <= 0xFFFF_FFFF,
        ;
    }
}

/// The highest limb that differs decides.
proof fn lemma_limbs_less(a: Seq<u32>, b: Seq<u32>, i: int)
    requires
        a.len() == b.len(),
        0 <= i < a.len(),
        a[i] < b[i],
        forall|j: int| i < j < a.len() ==> a[j] == b[j],
    ensures
        limbs_value(a) < limbs_value(b),
    decreases a.len(),
{
    let n = (a.len() - 1) as nat;
    let unit = pow2(32 * n);
    if i == n {
        lemma_limbs_below(a.drop_last());
        assert(a.last() as nat * unit + unit <= b.last() as nat * unit) by (nonlinear_arith)
            requires
                a.last() as nat + 1 <= b.last() as nat,
        ;
    } else {
        assert(a[n as int] == b[n as int]);
        lemma_limbs_less(a.drop_last(), b.drop_last(), i);
    }
}

impl Large {
    /// Zero.
    pub fn zero() -> (r: Large)
        ensures
            r@ == 0,
    {
        Large { limbs: Vec::new() }
    }

    /// The same number.
    pub fn copy(&self) -> (r: Large)
        ensures
            r@ == self@,
    {
        let mut limbs: Vec<u32> = Vec::new();
        let mut i: usize = 0;
        while i < self.limbs.len()
            invariant
                i <= self.limbs@.len(),
                limbs@ =~= self.limbs@.take(i as int),
            decreases self.limbs@.len() - i,
        {
            limbs.push(self.limbs[i]);
            i = i + 1;
        }
        assert(limbs@ =~= self.limbs@);
        Large { limbs }
    }

    /// Multiplies by `m` and adds `a`.
    pub fn scale(&mut self, m: u64, a: u64)
        requires
            m < 0x80_0000_0000_0000,
            a < 0x80_0000_0000_0000,
        ensures
            final(self)@ == old(self)@ * m + a,
    {
        let ghost start = self.limbs@;
        let mut carry: u64 = a;
        let mut i: usize = 0;
        proof {
            lemma2_to64();
            assert(limbs_value(start.take(0)) == 0);
            assert(0 * m as nat == 0);
            assert(a * pow2(0) == a) by (nonlinear_arith)
                requires
                    pow2(0) == 1,
            ;
        }
        while i < self.limbs.len()
            invariant
                i <= self.limbs@.len() == start.len(),
                m < 0x80_0000_0000_0000,
                carry < 0x80_0000_0000_0000,
                forall|j: int| i <= j < start.len() ==> self.limbs@[j] == start[j],
                limbs_value(self.limbs@.take(i as int)) + carry * pow2((32 * i) as nat)
                    == limbs_value(start.take(i as int)) * m + a,
            decreases start.len() - i,
        {
            let limb: u32 = self.limbs[i];
            assert(limb as int * m as int <= 0xFFFF_FFFF * 0x7F_FFFF_FFFF_FFFF) by (nonlinear_arith)
                requires
                    limb <= 0xFFFF_FFFF,
                    m <= 0x7F_FFFF_FFFF_FFFF,
            ;
            let all: u128 = limb as u128 * m as u128 + carry as u128;
            let low: u32 = (all % 0x1_0000_0000) as u32;
            let high: u64 = (all / 0x1_0000_0000) as u64;
            let ghost before = self.limbs@;
            self.limbs.set(i, low);
            proof {
                let unit = pow2((32 * i) as nat) as int;
                lemma2_to64();
                lemma_pow2_adds((32 * i) as nat, 32);
                assert(self.limbs@.take(i + 1) =~= before.take(i as int).push(low));
                assert(start.take(i + 1) =~= start.take(i as int).push(limb));
                lemma_limb(before.take(i as int), low);
                lemma_limb(start.take(i as int), limb);
                assert(before.take(i as int).len() == i && start.take(i as int).len() == i);
                let x = limbs_value(before.take(i as int)) as int;
                let y = limbs_value(start.take(i as int)) as int;
                assert(x + low * unit + high * (unit * 0x1_0000_0000) == (y + limb * unit) * m + a)
                    by (nonlinear_arith)
                    requires
                        x + carry * unit == y * m + a,
                        low + high * 0x1_0000_0000 == limb * m + carry,
                ;
            }
            carry = high;
            i = i + 1;
        }
        proof {
            assert(self.limbs@.take(i as int) =~= self.limbs@);
            assert(start.take(i as int) =~= start);
        }
        let low: u32 = (carry % 0x1_0000_0000) as u32;
        let high: u32 = (carry / 0x1_0000_0000) as u32;
        proof {
            let n = (32 * i) as nat;
            lemma2_to64();
            lemma_pow2_adds(n, 32);
            let unit = pow2(n) as int;
            assert(low * unit + high * (unit * 0x1_0000_0000) == carry * unit) by (nonlinear_arith)
                requires
                    low + high * 0x1_0000_0000 == carry,
            ;
            lemma_limb(self.limbs@, low);
            lemma_limb(self.limbs@.push(low), high);
        }
        self.limbs.push(low);
        self.limbs.push(high);
        self.trim();
    }

    /// Takes zeros off the top: all of them, and nothing else.
    fn trim(&mut self)
        ensures
            final(self)@ == old(self)@,
            final(self).limbs@.len() <= old(self).limbs@.len(),
            final(self).limbs@ == old(self).limbs@.take(final(self).limbs@.len() as int),
            forall|j: int|
                final(self).limbs@.len() <= j < old(self).limbs@.len() ==> old(self).limbs@[j] == 0,
            final(self).limbs@.len() > 0 ==> final(self).limbs@.last() != 0,
    {
        while self.limbs.len() > 0 && self.limbs[self.limbs.len() - 1] == 0
            invariant
                self@ == old(self)@,
                self.limbs@.len() <= old(self).limbs@.len(),
                self.limbs@ == old(self).limbs@.take(self.limbs@.len() as int),
                forall|j: int|
                    self.limbs@.len() <= j < old(self).limbs@.len() ==> old(self).limbs@[j] == 0,
            decreases self.limbs@.len(),
        {
            let ghost before = self.limbs@;
            self.limbs.pop();
            proof {
                assert(self.limbs@ =~= before.drop_last());
                assert(before.last() == old(self).limbs@[before.len() - 1]);
                assert(before.last() as nat * pow2((32 * (before.len() - 1)) as nat) == 0)
                    by (nonlinear_arith)
                    requires
                        before.last() == 0,
                ;
            }
        }
    }

    /// Divides by ten, and returns the remainder.
    pub fn tenth(&mut self) -> (d: u8)
        ensures
            final(self)@ == old(self)@ / 10,
            d == old(self)@ % 10,
    {
        let ghost start = self.limbs@;
        let mut rest: u64 = 0;
        let mut i: usize = self.limbs.len();
        assert(start.skip(i as int) =~= Seq::empty());
        assert(self.limbs@.skip(i as int) =~= Seq::empty());
        while i > 0
            invariant
                i <= self.limbs@.len() == start.len(),
                rest < 10,
                forall|j: int| 0 <= j < i ==> self.limbs@[j] == start[j],
                limbs_value(start.skip(i as int)) == 10 * limbs_value(self.limbs@.skip(i as int))
                    + rest,
            decreases i,
        {
            let ghost before = self.limbs@;
            let ghost at = i as int;
            i = i - 1;
            let all: u64 = rest * 0x1_0000_0000 + self.limbs[i] as u64;
            let q: u32 = (all / 10) as u32;
            self.limbs.set(i, q);
            proof {
                lemma_low_limb(start.skip(i as int));
                lemma_low_limb(self.limbs@.skip(i as int));
                assert(start.skip(i as int).skip(1) =~= start.skip(at));
                assert(self.limbs@.skip(i as int).skip(1) =~= before.skip(at));
            }
            rest = all % 10;
        }
        proof {
            assert(start.skip(0) =~= start);
            assert(self.limbs@.skip(0) =~= self.limbs@);
        }
        self.trim();
        rest as u8
    }

    /// Multiplies by five to the power of `n`.
    pub fn five_up(&mut self, n: u32)
        ensures
            final(self)@ * pow2(n as nat) == old(self)@ * ten_to(n as nat),
    {
        let ghost start = self@;
        let mut i: u32 = 0;
        proof {
            lemma2_to64();
            assert(start * pow2(0) == start * ten_to(0)) by (nonlinear_arith)
                requires
                    pow2(0) == 1,
                    ten_to(0) == 1,
            ;
        }
        while i < n
            invariant
                i <= n,
                self@ * pow2(i as nat) == start * ten_to(i as nat),
            decreases n - i,
        {
            let ghost x = self@;
            self.scale(5, 0);
            proof {
                let p = pow2(i as nat);
                let t = ten_to(i as nat);
                lemma_pow2_unfold((i + 1) as nat);
                assert((x * 5) * (2 * p) == start * (10 * t)) by (nonlinear_arith)
                    requires
                        x * p == start * t,
                ;
            }
            i = i + 1;
        }
    }

    /// Multiplies by two to the power of `k`.
    pub fn double_up(&mut self, k: u32)
        ensures
            final(self)@ == old(self)@ * pow2(k as nat),
    {
        let ghost start = self@;
        let mut left: u32 = k;
        proof {
            lemma2_to64();
            assert(start * pow2(0) == start);
        }
        while left >= 32
            invariant
                left <= k,
                self@ == start * pow2((k - left) as nat),
            decreases left,
        {
            self.scale(0x1_0000_0000, 0);
            proof {
                lemma2_to64();
                lemma_pow2_adds((k - left) as nat, 32);
                let p = pow2((k - left) as nat);
                assert((start * p) * 0x1_0000_0000 == start * (p * 0x1_0000_0000))
                    by (nonlinear_arith);
            }
            left = left - 32;
        }
        while left > 0
            invariant
                left <= k,
                self@ == start * pow2((k - left) as nat),
            decreases left,
        {
            self.scale(2, 0);
            proof {
                lemma_pow2_unfold((k - left + 1) as nat);
                let p = pow2((k - left) as nat);
                assert((start * p) * 2 == start * (2 * p)) by (nonlinear_arith);
            }
            left = left - 1;
        }
    }

    /// Multiplies by ten to the power of `n`.
    pub fn ten_up(&mut self, n: u128)
        ensures
            final(self)@ == old(self)@ * ten_to(n as nat),
    {
        let ghost start = self@;
        let mut i: u128 = 0;
        assert(start * ten_to(0) == start) by (nonlinear_arith)
            requires
                ten_to(0) == 1,
        ;
        while i < n
            invariant
                i <= n,
                self@ == start * ten_to(i as nat),
            decreases n - i,
        {
            self.scale(10, 0);
            proof {
                let t = ten_to(i as nat);
                assert((start * t) * 10 == start * (10 * t)) by (nonlinear_arith);
            }
            i = i + 1;
        }
    }

    /// Makes room for `n` limbs, with zeros on top.
    fn pad(&mut self, n: usize)
        ensures
            final(self)@ == old(self)@,
            final(self).limbs@.len() == if old(self).limbs@.len() < n {
                n as nat
            } else {
                old(self).limbs@.len()
            },
    {
        while self.limbs.len() < n
            invariant
                self@ == old(self)@,
                self.limbs@.len() <= if old(self).limbs@.len() < n {
                    n as nat
                } else {
                    old(self).limbs@.len()
                },
                old(self).limbs@.len() <= self.limbs@.len(),
            decreases n - self.limbs@.len(),
        {
            proof {
                lemma_limb(self.limbs@, 0);
                assert(0nat * pow2((32 * self.limbs@.len()) as nat) == 0);
            }
            self.limbs.push(0);
        }
    }

    /// `self <= other`.
    pub fn at_most(&self, other: &Large) -> (b: bool)
        ensures
            b == (self@ <= other@),
    {
        let mut x = self.copy();
        let mut y = other.copy();
        x.pad(y.limbs.len());
        y.pad(x.limbs.len());
        let mut i: usize = x.limbs.len();
        while i > 0
            invariant
                x@ == self@,
                y@ == other@,
                i <= x.limbs@.len() == y.limbs@.len(),
                forall|j: int| i <= j < x.limbs@.len() ==> x.limbs@[j] == y.limbs@[j],
            decreases i,
        {
            i = i - 1;
            if x.limbs[i] < y.limbs[i] {
                proof {
                    lemma_limbs_less(x.limbs@, y.limbs@, i as int);
                }
                return true;
            }
            if y.limbs[i] < x.limbs[i] {
                proof {
                    lemma_limbs_less(y.limbs@, x.limbs@, i as int);
                }
                return false;
            }
        }
        assert(x.limbs@ =~= y.limbs@);
        true
    }
}

/// `m * 2^t * den <= num`.
fn fits(m: u64, t: u32, num: &Large, den: &Large) -> (b: bool)
    requires
        m < 0x80_0000_0000_0000,
    ensures
        b == (m * pow2(t as nat) * den@ <= num@),
{
    let mut product = den.copy();
    product.scale(m, 0);
    product.double_up(t);
    proof {
        let p = pow2(t as nat);
        assert((den@ * m) * p == m * p * den@) by (nonlinear_arith);
    }
    product.at_most(num)
}

/// The leading digits of a magnitude up to infinity, and the power of two they are times.
fn parts(mag: u64) -> (r: (u64, u32))
    requires
        mag <= INFINITE,
    ensures
        r.0 < 2 * HIDDEN,
        r.1 <= 2046,
        scaled(mag) == r.0 * pow2(r.1 as nat),
        mag < INFINITE ==> scaled((mag + 1) as u64) == (r.0 + 1) * pow2(r.1 as nat),
{
    if mag == INFINITE {
        (HIDDEN, 2046)
    } else {
        let (m, s) = split(mag);
        proof {
            lemma_next(mag, m as nat, s as nat);
        }
        (m, s as u32)
    }
}

/// The next magnitude has one more in its last place.
proof fn lemma_next(mag: u64, m: nat, s: nat)
    requires
        mag < INFINITE,
        m < 2 * HIDDEN,
        m >= HIDDEN || s == 0,
        scaled(mag) == m * pow2(s),
    ensures
        scaled((mag + 1) as u64) == (m + 1) * pow2(s),
{
    let h = HIDDEN as int;
    lemma2_to64();
    lemma_pow2_unfold(s + 1);
    lemma_pow2_pos(s);
    let e = mag as int / h;
    let f = mag as int % h;
    assert(mag == e * h + f) by (nonlinear_arith)
        requires
            e == mag as int / h,
            f == mag as int % h,
            h == 0x10_0000_0000_0000,
    ;
    if e == 0 {
        // below the hidden digit, and scaled by one
        assert(scaled(mag) == f);
        lemma_small_parts(m, s, f as nat);
        if f + 1 < h {
            lemma_fundamental_div_mod_converse(mag + 1, h, 0, f + 1);
        } else {
            lemma_fundamental_div_mod_converse(mag + 1, h, 1, 0);
        }
    } else {
        lemma_same_parts(m, s, (h + f) as nat, (e - 1) as nat);
        if f + 1 < h {
            lemma_fundamental_div_mod_converse(mag + 1, h, e, f + 1);
        } else {
            lemma_fundamental_div_mod_converse(mag + 1, h, e + 1, 0);
            assert(h * (2 * pow2(s)) == (2 * h) * pow2(s)) by (nonlinear_arith);
        }
    }
}

proof fn lemma_small_parts(m: nat, s: nat, f: nat)
    requires
        m >= HIDDEN || s == 0,
        m * pow2(s) == f,
        f < HIDDEN,
    ensures
        s == 0,
        m == f,
{
    lemma2_to64();
    lemma_pow2_pos(s);
    if m >= HIDDEN {
        assert(m * pow2(s) >= m) by (nonlinear_arith)
            requires
                pow2(s) >= 1,
        ;
    }
    assert(m * 1 == m);
}

proof fn lemma_same_parts(m: nat, s: nat, n: nat, t: nat)
    requires
        m < 2 * HIDDEN,
        m >= HIDDEN || s == 0,
        HIDDEN <= n < 2 * HIDDEN,
        m * pow2(s) == n * pow2(t),
    ensures
        m == n,
        s == t,
{
    lemma2_to64();
    if s < t {
        lemma_pow2_adds(s, (t - s) as nat);
        lemma_pow2_unfold((t - s) as nat);
        lemma_pow2_pos(s);
        lemma_pow2_pos((t - s - 1) as nat);
        let d = pow2((t - s) as nat);
        assert(m == n * d) by (nonlinear_arith)
            requires
                m * pow2(s) == n * (pow2(s) * d),
                pow2(s) > 0,
        ;
        assert(n * d >= 2 * n) by (nonlinear_arith)
            requires
                d >= 2,
        ;
    } else if t < s {
        lemma_pow2_adds(t, (s - t) as nat);
        lemma_pow2_unfold((s - t) as nat);
        lemma_pow2_pos(t);
        lemma_pow2_pos((s - t - 1) as nat);
        let d = pow2((s - t) as nat);
        assert(n == m * d) by (nonlinear_arith)
            requires
                m * (pow2(t) * d) == n * pow2(t),
                pow2(t) > 0,
        ;
        assert(m * d >= 2 * m) by (nonlinear_arith)
            requires
                d >= 2,
        ;
    } else {
        lemma_pow2_pos(s);
        assert(m == n) by (nonlinear_arith)
            requires
                m * pow2(s) == n * pow2(s),
                pow2(s) > 0,
        ;
    }
}

/// The largest magnitude that is not above a fraction.
fn floor_magnitude(num: &Large, den: &Large) -> (mag: u64)
    requires
        den@ > 0,
    ensures
        mag <= INFINITE,
        scaled(mag) * den@ <= num@,
        mag < INFINITE ==> num@ < scaled((mag + 1) as u64) * den@,
{
    let mut low: u64 = 0;
    let mut high: u64 = INFINITE + 1;
    proof {
        assert(scaled(0) == 0);
        assert(0 * den@ == 0);
    }
    while high - low > 1
        invariant
            low < high <= INFINITE + 1,
            scaled(low) * den@ <= num@,
            high <= INFINITE ==> num@ < scaled(high) * den@,
        decreases high - low,
    {
        let middle: u64 = low + (high - low) / 2;
        let (m, t) = parts(middle);
        if fits(m, t, num, den) {
            low = middle;
        } else {
            high = middle;
        }
    }
    low
}

/// The magnitude nearest to a fraction.
fn nearest_magnitude(num: &Large, den: &Large) -> (mag: u64)
    requires
        den@ > 0,
    ensures
        mag == nearest(num@, den@),
        mag <= INFINITE,
{
    let low = floor_magnitude(num, den);
    let mut mag: u64 = low;
    if low < INFINITE {
        let (m, t) = parts(low);
        let mut twice = num.copy();
        twice.scale(2, 0);
        let mut halfway = den.copy();
        halfway.scale(2 * m + 1, 0);
        halfway.double_up(t);
        let ghost middle = (scaled(low) + scaled((low + 1) as u64)) * den@;
        proof {
            let p = pow2(t as nat);
            assert((den@ * (2 * m + 1) as nat) * p == (m * p + (m + 1) * p) * den@)
                by (nonlinear_arith);
            assert(halfway@ == middle);
        }
        let below = twice.at_most(&halfway);
        let above = halfway.at_most(&twice);
        if !below || (above && low % 2 == 1) {
            mag = low + 1;
        }
    }
    proof {
        lemma_rounds(num@, den@, low, mag);
        lemma_nearest_exists(num@, den@);
        lemma_nearest_is_unique(mag, nearest(num@, den@), num@, den@);
    }
    mag
}

/// Rounding from the largest magnitude that is not above.
proof fn lemma_rounds(num: nat, den: nat, low: u64, mag: u64)
    requires
        den > 0,
        low <= INFINITE,
        scaled(low) * den <= num,
        low < INFINITE ==> num < scaled((low + 1) as u64) * den,
        low == INFINITE ==> mag == low,
        low < INFINITE ==> {
            let middle = (scaled(low) + scaled((low + 1) as u64)) * den;
            mag == if 2 * num > middle || (2 * num == middle && low % 2 == 1) {
                (low + 1) as u64
            } else {
                low
            }
        },
    ensures
        is_nearest(mag, num, den),
        mag <= INFINITE,
{
    let a = scaled(low) as int;
    if mag == low {
        if low > 0 {
            lemma_scaled_increases((low - 1) as u64, low);
            let b = scaled((low - 1) as u64) as int;
            assert((b + a) * den < 2 * num) by (nonlinear_arith)
                requires
                    b < a,
                    a * den <= num,
                    den > 0,
            ;
        }
    } else {
        let c = scaled((low + 1) as u64) as int;
        if mag < INFINITE {
            lemma_scaled_increases(mag, (mag + 1) as u64);
            let e = scaled((mag + 1) as u64) as int;
            assert(2 * num < (c + e) * den) by (nonlinear_arith)
                requires
                    num < c * den,
                    c < e,
                    den > 0,
            ;
        }
    }
}

/// Ten to any power is above zero, and not below eight to it.
proof fn lemma_ten_above(n: nat)
    ensures
        ten_to(n) >= pow2(3 * n),
        ten_to(n) > 0,
    decreases n,
{
    lemma2_to64();
    if n > 0 {
        lemma_ten_above((n - 1) as nat);
        lemma_pow2_adds((3 * (n - 1)) as nat, 3);
        lemma_pow2_pos((3 * (n - 1)) as nat);
    }
}

/// Exponents add up.
pub proof fn lemma_ten_adds(a: nat, b: nat)
    ensures
        ten_to(a + b) == ten_to(a) * ten_to(b),
    decreases a,
{
    if a == 0 {
        assert(1 * ten_to(b) == ten_to(b));
    } else {
        lemma_ten_adds((a - 1) as nat, b);
        let x = ten_to((a - 1) as nat);
        assert(10 * (x * ten_to(b)) == (10 * x) * ten_to(b)) by (nonlinear_arith);
    }
}

/// A number with an exponent above 400 is beyond all doubles.
proof fn lemma_huge(digits: nat, exponent: int)
    requires
        digits > 0,
        exponent > 400,
    ensures
        decimal_magnitude(digits, exponent) == INFINITE,
{
    let t = ten_to(exponent as nat);
    lemma_ten_above(exponent as nat);
    lemma_pow2_strictly_increases(1024, (3 * exponent) as nat);
    let n = digits * t * pow2(1074);
    lemma2_to64();
    lemma_pow2_adds(52, 2046);
    lemma_pow2_adds(1024, 1074);
    lemma_pow2_adds(32, 20);
    assert(scaled(INFINITE) == HIDDEN * pow2(2046));
    assert(n >= pow2(1024) * pow2(1074)) by (nonlinear_arith)
        requires
            n == digits * t * pow2(1074),
            digits >= 1,
            t >= pow2(1024),
    ;
    assert(scaled(INFINITE) * 1 == scaled(INFINITE));
    lemma_nearest_at_least(n, 1, INFINITE);
}

/// A number below ten to the power of -400 is nearest to zero.
proof fn lemma_tiny(digits: nat, exponent: int, len: nat)
    requires
        digits < ten_to(len),
        len + exponent < -400,
    ensures
        decimal_magnitude(digits, exponent) == 0,
{
    let gap = (-exponent - len) as nat;
    let den = ten_to((-exponent) as nat);
    lemma_ten_adds(len, gap);
    lemma_ten_above(gap);
    lemma_ten_above(len);
    lemma_pow2_strictly_increases(1075, 3 * gap);
    lemma_pow2_unfold(1075);
    let n = digits * pow2(1074);
    let l = ten_to(len);
    let g = ten_to(gap);
    lemma_pow2_pos(1074);
    assert(2 * n < den) by (nonlinear_arith)
        requires
            n == digits * pow2(1074),
            digits < l,
            den == l * g,
            g >= 2 * pow2(1074),
            pow2(1074) > 0,
    ;
    lemma2_to64();
    assert(scaled(0) == 0 && scaled(1) == 1);
    assert((scaled(0) + scaled(1)) * den == den) by (nonlinear_arith)
        requires
            scaled(0) == 0,
            scaled(1) == 1,
    ;
    assert(is_nearest(0, n, den));
    lemma_nearest_exists(n, den);
    lemma_nearest_is_unique(0, nearest(n, den), n, den);
}

/// Exponents that are far out on the same side make no difference.
pub proof fn lemma_far_exponents(digits: nat, len: nat, a: int, b: int)
    requires
        digits < ten_to(len),
        (a > 400 && b > 400) || (len + a < -400 && len + b < -400),
    ensures
        decimal_magnitude(digits, a) == decimal_magnitude(digits, b),
{
    if digits == 0 {
        lemma_zero(a);
        lemma_zero(b);
    } else if a > 400 {
        lemma_huge(digits, a);
        lemma_huge(digits, b);
    } else {
        lemma_tiny(digits, a, len);
        lemma_tiny(digits, b, len);
    }
}

/// The double nearest to a decimal number with `len` digits or fewer.
pub fn nearest_decimal(negative: bool, digits: &Large, len: usize, exponent: i128) -> (r: Double)
    requires
        digits@ < ten_to(len as nat),
        i128::MIN / 2 < exponent < i128::MAX / 2,
    ensures
        r == decimal_double(negative, digits@, exponent as int),
{
    let mag: u64 = if digits.at_most(&Large::zero()) {
        proof {
            lemma_zero(exponent as int);
        }
        0
    } else if exponent > 400 {
        proof {
            lemma_huge(digits@, exponent as int);
        }
        INFINITE
    } else if (len as i128) + exponent < -400 {
        proof {
            lemma_tiny(digits@, exponent as int, len as nat);
        }
        0
    } else {
        let mut num = digits.copy();
        let mut den = Large::zero();
        den.scale(0, 1);
        if exponent >= 0 {
            num.ten_up(exponent as u128);
        } else {
            den.ten_up((-exponent) as u128);
            proof {
                lemma_ten_above((-exponent) as nat);
                assert(1 * ten_to((-exponent) as nat) == ten_to((-exponent) as nat));
            }
        }
        num.double_up(1074);
        nearest_magnitude(&num, &den)
    };
    if negative {
        Double { bits: SIGN + mag }
    } else {
        Double { bits: mag }
    }
}

proof fn lemma_zero(exponent: int)
    ensures
        decimal_magnitude(0, exponent) == 0,
{
    let den = if exponent >= 0 {
        1
    } else {
        ten_to((-exponent) as nat)
    };
    if exponent >= 0 {
        assert(0 * ten_to(exponent as nat) * pow2(1074) == 0);
    } else {
        lemma_ten_above((-exponent) as nat);
        assert(0 * pow2(1074) == 0);
    }
    lemma2_to64();
    assert(scaled(0) == 0 && scaled(1) == 1);
    assert((scaled(0) + scaled(1)) * den == den) by (nonlinear_arith)
        requires
            scaled(0) == 0,
            scaled(1) == 1,
    ;
    assert(is_nearest(0, 0, den));
    lemma_nearest_exists(0, den);
    lemma_nearest_is_unique(0, nearest(0, den), 0, den);
}

} // verus!
