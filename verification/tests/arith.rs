//! Double arithmetic against the machine's.
use rustspeck::convert::widen_single;
use rustspeck::double::Double;

fn d(x: f64) -> Double {
    Double { bits: x.to_bits() }
}

fn f(x: Double) -> f64 {
    f64::from_bits(x.bits)
}

fn same(a: f64, b: f64) -> bool {
    a.to_bits() == b.to_bits() || (a.is_nan() && b.is_nan())
}

struct Random(u64);

impl Random {
    fn next(&mut self) -> u64 {
        self.0 ^= self.0 << 13;
        self.0 ^= self.0 >> 7;
        self.0 ^= self.0 << 17;
        self.0
    }

    fn bits(&mut self) -> f64 {
        f64::from_bits(self.next())
    }

    fn moderate(&mut self) -> f64 {
        let r = self.next();
        let e = (r % 130) as i32 - 65;
        let s = if r & 1024 == 0 { 1.0 } else { -1.0 };
        let m = self.next() >> (self.next() % 60);
        s * m as f64 * 2f64.powi(e)
    }
}

fn check(a: f64, b: f64) {
    assert!(same(f(d(a).plus(d(b))), a + b), "{a:e} + {b:e}");
    assert!(same(f(d(a).minus(d(b))), a - b), "{a:e} - {b:e}");
    assert!(same(f(d(a).times(d(b))), a * b), "{a:e} * {b:e}");
    assert!(same(f(d(a).over(d(b))), a / b), "{a:e} / {b:e}");
    assert_eq!(d(a).lt(d(b)), a < b);
    assert_eq!(d(a).le(d(b)), a <= b);
    if a != b {
        assert!(same(f(d(a).min(d(b))), a.min(b)), "min {a:e} {b:e}");
        assert!(same(f(d(a).max(d(b))), a.max(b)), "max {a:e} {b:e}");
    }
}

fn check_one(a: f64) {
    assert!(same(f(d(a).negate()), -a));
    assert!(same(f(d(a).floor()), a.floor()), "floor {a:e}");
    assert!(same(f(d(a).ceil()), a.ceil()), "ceil {a:e}");
    assert!(same(f(d(a).round()), a.round()), "round {a:e}");
    assert_eq!(d(a).to_i32(), a as i32, "{a:e}");
    assert_eq!(d(a).to_i64(), a as i64, "{a:e}");
    assert_eq!(d(a).to_u64(), a as u64, "{a:e}");
    assert_eq!(d(a).floor_i32(), a.floor() as i32, "{a:e}");
    assert_eq!(d(a).round_i64(), a.round() as i64, "{a:e}");
    assert!(same(f(d(a).sqrt()), a.sqrt()), "sqrt {a:e}");
    assert_eq!(d(a).is_nan(), a.is_nan());
    assert_eq!(d(a).is_zero(), a == 0.0);
    let single = f32::from_bits(d(a).narrow());
    assert!(single.to_bits() == (a as f32).to_bits() || (single.is_nan() && a.is_nan()), "{a:e}");
}

const EDGES: [f64; 27] = [
    0.0,
    -0.0,
    1.0,
    -1.0,
    0.5,
    -0.5,
    1.5,
    2.5,
    -2.5,
    0.49999999999999994,
    f64::MIN_POSITIVE,
    5e-324,
    -5e-324,
    f64::MAX,
    f64::MIN,
    f64::INFINITY,
    f64::NEG_INFINITY,
    f64::NAN,
    f64::EPSILON,
    1e16,
    9007199254740993.0,
    2147483647.5,
    -2147483648.5,
    9223372036854775807.0,
    18446744073709551615.0,
    1e-45,
    3.4028235677973366e38,
];

#[test]
fn arithmetic_agrees_on_edges() {
    for &a in &EDGES {
        check_one(a);
        for &b in &EDGES {
            check(a, b);
        }
    }
}

#[test]
fn arithmetic_agrees_on_any_bits() {
    let mut r = Random(0x9E3779B97F4A7C15);
    for _ in 0..30000 {
        let (a, b) = (r.bits(), r.bits());
        check(a, b);
        check_one(a);
    }
}

#[test]
fn arithmetic_agrees_on_numbers_of_like_size() {
    let mut r = Random(42);
    for _ in 0..30000 {
        let (a, b) = (r.moderate(), r.moderate());
        check(a, b);
        check(a, -a);
        check_one(a);
        check_one(a.trunc() + 0.5);
    }
}

#[test]
fn whole_numbers_convert() {
    let mut r = Random(7);
    for _ in 0..20000 {
        let n = r.next() >> (r.next() % 64);
        assert_eq!(f(Double::from_u64(n)), n as f64);
        assert_eq!(f(Double::from_i64(n as i64)), n as i64 as f64);
        assert_eq!(f(Double::from_i32(n as i32)), n as i32 as f64);
        assert_eq!(f(Double::from_u32(n as u32)), n as u32 as f64);
    }
    assert_eq!(f(Double::from_i64(i64::MIN)), i64::MIN as f64);
    assert_eq!(f(Double::from_u64(u64::MAX)), u64::MAX as f64);
}

#[test]
fn singles_widen_exactly() {
    let mut r = Random(99);
    for _ in 0..20000 {
        let bits = r.next() as u32;
        let wide = f(widen_single(bits));
        let want = f32::from_bits(bits) as f64;
        assert!(same(wide, want), "{bits:x}");
    }
}

#[test]
fn within_refuses_what_is_no_number() {
    assert!(d(1.0).within(d(1.0), d(5000.0)));
    assert!(d(5000.0).within(d(1.0), d(5000.0)));
    assert!(!d(0.999).within(d(1.0), d(5000.0)));
    assert!(!d(f64::NAN).within(d(1.0), d(5000.0)));
}
