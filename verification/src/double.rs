//! Double-precision numbers carried as bit patterns.
//!
//! What a double stands for, how two of them compare and which whole numbers are
//! doubles can all be read off the IEEE 754 encoding. The arithmetic is built on
//! this in the modules `rounding` and `arith`.
use vstd::arithmetic::power2::{
    lemma2_to64, lemma_pow2_adds, lemma_pow2_pos, lemma_pow2_strictly_increases, lemma_pow2_unfold,
    pow2,
};
use vstd::prelude::*;

verus! {

/// The sign bit.
pub const SIGN: u64 = 0x8000_0000_0000_0000;

/// The magnitude bits of infinity; every larger magnitude is a NaN.
pub const INFINITE: u64 = 0x7FF0_0000_0000_0000;

/// The implicit leading bit of a normal number, and the weight of its exponent.
pub const HIDDEN: u64 = 0x0010_0000_0000_0000;

/// An IEEE 754 double, by its bits.
#[derive(Clone, Copy, Debug, PartialEq, Eq, Structural)]
pub struct Double {
    pub bits: u64,
}

/// The number of times 2^-1074, the smallest double above zero, goes into the
/// finite double with magnitude bits `mag`. Every finite double is a whole number
/// of these, so this is its exact absolute value.
pub open spec fn scaled(mag: u64) -> nat {
    let exponent = mag / HIDDEN;
    let fraction = mag % HIDDEN;
    if exponent == 0 {
        fraction as nat
    } else {
        (HIDDEN + fraction) as nat * pow2((exponent - 1) as nat)
    }
}

impl Double {
    pub open spec fn negative(self) -> bool {
        self.bits >= SIGN
    }

    /// The bits but for the sign.
    pub open spec fn magnitude(self) -> u64 {
        self.bits % SIGN
    }

    pub open spec fn nan(self) -> bool {
        self.magnitude() > INFINITE
    }

    pub open spec fn finite(self) -> bool {
        self.magnitude() < INFINITE
    }

    /// The exact value of a finite number, in units of 2^-1074.
    pub open spec fn value(self) -> int {
        if self.negative() {
            -(scaled(self.magnitude()) as int)
        } else {
            scaled(self.magnitude()) as int
        }
    }

    /// A whole number that orders the doubles as their values do, infinities
    /// included: IEEE 754 orders magnitudes as their bits.
    pub open spec fn rank(self) -> int {
        if self.negative() {
            -(self.magnitude() as int)
        } else {
            self.magnitude() as int
        }
    }

    /// `self < other`: false when either is a NaN.
    pub open spec fn less(self, other: Double) -> bool {
        !self.nan() && !other.nan() && self.rank() < other.rank()
    }

    /// `self <= other`: false when either is a NaN.
    pub open spec fn at_most(self, other: Double) -> bool {
        !self.nan() && !other.nan() && self.rank() <= other.rank()
    }

    /// Zero of either sign.
    pub fn is_zero(self) -> (zero: bool)
        ensures
            zero == (self.magnitude() == 0),
            zero == (self.finite() && self.value() == 0),
    {
        proof {
            if self.magnitude() > 0 {
                lemma_scaled_positive(self.magnitude());
            }
            assert(scaled(0) == 0);
        }
        self.bits % SIGN == 0
    }

    fn order(self) -> (rank: i64)
        ensures
            rank == self.rank(),
    {
        if self.bits >= SIGN {
            -((self.bits - SIGN) as i64)
        } else {
            self.bits as i64
        }
    }

    pub fn is_nan(self) -> (b: bool)
        ensures
            b == self.nan(),
    {
        self.bits % SIGN > INFINITE
    }

    /// `self < other`.
    pub fn lt(self, other: Double) -> (b: bool)
        ensures
            b == self.less(other),
    {
        !self.is_nan() && !other.is_nan() && self.order() < other.order()
    }

    /// `self <= other`.
    pub fn le(self, other: Double) -> (b: bool)
        ensures
            b == self.at_most(other),
    {
        !self.is_nan() && !other.is_nan() && self.order() <= other.order()
    }

    /// `lo <= self <= hi`: false for a NaN.
    pub fn within(self, lo: Double, hi: Double) -> (b: bool)
        ensures
            b == (lo.at_most(self) && self.at_most(hi)),
    {
        lo.le(self) && self.le(hi)
    }

    /// `-self`.
    pub fn negate(self) -> (r: Double)
        ensures
            r.magnitude() == self.magnitude(),
            r.negative() == !self.negative(),
            r.value() == -self.value(),
    {
        if self.bits >= SIGN {
            Double { bits: self.bits - SIGN }
        } else {
            Double { bits: self.bits + SIGN }
        }
    }

    /// The double equal to `mantissa * 2^(power - 1074)`.
    fn pack(mantissa: u64, power: u64) -> (r: Double)
        requires
            0 < mantissa < 2 * HIDDEN,
            power <= 2000,
        ensures
            r.finite(),
            !r.negative(),
            r.value() == mantissa * pow2(power as nat),
    {
        let mut m: u64 = mantissa;
        let mut p: u64 = power;
        while m < HIDDEN && p > 0
            invariant
                0 < m < 2 * HIDDEN,
                p <= 2000,
                m * pow2(p as nat) == mantissa * pow2(power as nat),
            decreases p,
        {
            proof {
                lemma_pow2_unfold(p as nat);
                assert((m * 2) * pow2((p - 1) as nat) == m * (2 * pow2((p - 1) as nat)))
                    by (nonlinear_arith);
            }
            m = m * 2;
            p = p - 1;
        }
        proof {
            lemma2_to64();
        }
        if m < HIDDEN {
            assert(p == 0 && m * pow2(0) == m);
            assert(m % SIGN == m);
            assert(m / HIDDEN == 0 && m % HIDDEN == m);
            Double { bits: m }
        } else {
            let bits = (p + 1) * HIDDEN + (m - HIDDEN);
            proof {
                assert(bits / HIDDEN == p + 1);
                assert(bits % HIDDEN == m - HIDDEN);
                assert(bits < INFINITE);
                assert(bits % SIGN == bits);
            }
            Double { bits }
        }
    }

    /// The double equal to the whole number `n`.
    pub fn from_i32(n: i32) -> (r: Double)
        ensures
            r.finite(),
            r.value() == n * pow2(1074),
            n == 0 ==> r.bits == 0,
    {
        if n == 0 {
            assert(scaled(0) == 0);
            assert(0 * pow2(1074) == 0);
            return Double { bits: 0 };
        }
        let m: u64 = if n < 0 {
            (-(n as i64)) as u64
        } else {
            n as u64
        };
        let r = Double::pack(m, 1074);
        proof {
            assert((-(m as int)) * pow2(1074) == -(m * pow2(1074))) by (nonlinear_arith);
        }
        if n < 0 {
            r.negate()
        } else {
            r
        }
    }

    /// The double equal to the whole number `n`.
    pub fn from_u32(n: u32) -> (r: Double)
        ensures
            r.finite(),
            r.value() == n * pow2(1074),
    {
        if n == 0 {
            assert(scaled(0) == 0);
            assert(0 * pow2(1074) == 0);
            Double { bits: 0 }
        } else {
            Double::pack(n as u64, 1074)
        }
    }
}

/// The exact absolute value of a finite single-precision number with magnitude
/// bits `mag`, in units of 2^-149.
pub open spec fn scaled_single(mag: u32) -> nat {
    let exponent = mag / 0x0080_0000;
    let fraction = mag % 0x0080_0000;
    if exponent == 0 {
        fraction as nat
    } else {
        (0x0080_0000 + fraction) as nat * pow2((exponent - 1) as nat)
    }
}

/// The double equal to the single with the given bits; a NaN stays a NaN.
pub fn widen(single: u32) -> (r: Double)
    ensures
        ({
            let mag = single % 0x8000_0000;
            &&& r.negative() == (single >= 0x8000_0000)
            &&& r.nan() == (mag > 0x7F80_0000)
            &&& r.finite() == (mag < 0x7F80_0000)
            &&& mag < 0x7F80_0000 ==> scaled(r.magnitude()) == scaled_single(mag) * pow2(925)
        }),
{
    let mag: u32 = single % 0x8000_0000;
    let exponent: u32 = mag / 0x0080_0000;
    let fraction: u32 = mag % 0x0080_0000;
    let r = if mag > 0x7F80_0000 {
        Double { bits: INFINITE + fraction as u64 }
    } else if mag == 0x7F80_0000 {
        Double { bits: INFINITE }
    } else if mag == 0 {
        assert(scaled(0) == 0);
        assert(scaled_single(0) == 0);
        assert(0 * pow2(925) == 0);
        Double { bits: 0 }
    } else if exponent == 0 {
        Double::pack(fraction as u64, 925)
    } else {
        proof {
            let e = (exponent - 1) as nat;
            let f = (0x0080_0000 + fraction) as nat;
            lemma_pow2_adds(e, 925);
            assert(f * pow2(e) * pow2(925) == f * (pow2(e) * pow2(925))) by (nonlinear_arith);
        }
        Double::pack((0x0080_0000 + fraction) as u64, 925 + (exponent - 1) as u64)
    };
    if single >= 0x8000_0000 {
        r.negate()
    } else {
        r
    }
}

/// A magnitude other than zero is a value other than zero.
proof fn lemma_scaled_positive(mag: u64)
    requires
        mag > 0,
    ensures
        scaled(mag) > 0,
{
    if mag / HIDDEN != 0 {
        let e = (mag / HIDDEN - 1) as nat;
        lemma_pow2_pos(e);
        assert((HIDDEN + mag % HIDDEN) as nat * pow2(e) > 0) by (nonlinear_arith)
            requires
                pow2(e) > 0,
        ;
    }
}

/// Magnitudes order finite numbers as their bits do.
pub proof fn lemma_scaled_increases(a: u64, b: u64)
    requires
        a < b,
    ensures
        scaled(a) < scaled(b),
{
    let ea = a / HIDDEN;
    let eb = b / HIDDEN;
    let ma = (HIDDEN + a % HIDDEN) as nat;
    let mb = (HIDDEN + b % HIDDEN) as nat;
    lemma2_to64();
    if eb == 0 {
    } else if ea == eb {
        let p = pow2((eb - 1) as nat);
        lemma_pow2_pos((eb - 1) as nat);
        assert(ma * p < mb * p) by (nonlinear_arith)
            requires
                ma < mb,
                p > 0,
        ;
    } else {
        let p = pow2((eb - 1) as nat);
        lemma_pow2_pos((eb - 1) as nat);
        assert(HIDDEN * p <= mb * p) by (nonlinear_arith)
            requires
                HIDDEN <= mb,
        ;
        if ea == 0 {
            assert(HIDDEN <= HIDDEN * p) by (nonlinear_arith)
                requires
                    p > 0,
            ;
        } else {
            let q = pow2((ea - 1) as nat);
            lemma_pow2_pos((ea - 1) as nat);
            lemma_pow2_unfold(ea as nat);
            if ea < eb - 1 {
                lemma_pow2_strictly_increases(ea as nat, (eb - 1) as nat);
            }
            assert(2 * q <= p);
            assert(ma * q < HIDDEN * p) by (nonlinear_arith)
                requires
                    ma < 2 * HIDDEN,
                    2 * q <= p,
                    q > 0,
            ;
        }
    }
}

/// The order of two finite numbers is the order of their values.
pub proof fn law_order_is_value_order(a: Double, b: Double)
    requires
        a.finite(),
        b.finite(),
    ensures
        a.less(b) <==> a.value() < b.value(),
        a.at_most(b) <==> a.value() <= b.value(),
{
    let x = a.magnitude();
    let y = b.magnitude();
    if x < y {
        lemma_scaled_increases(x, y);
    } else if y < x {
        lemma_scaled_increases(y, x);
    }
    if x > 0 {
        lemma_scaled_positive(x);
    }
    if y > 0 {
        lemma_scaled_positive(y);
    }
    assert(scaled(0) == 0);
}

} // verus!
