//! Numbers in their shortest form.
//!
//! A number is rounded to a given count of digits, an exact half to the even one. It is
//! written out with a point, or, where it is very small or needs more digits than it is
//! rounded to, with an exponent. Zeros that end a fraction are left out.
use crate::arith::{product, whole};
use crate::decimal::{lemma_ten_adds, ten_to, Large};
use crate::double::{scaled, Double, INFINITE, SIGN};
use crate::labels::{
    fixed_text, half_even, last_digits, lemma_half_even_scales, lemma_ten_to,
    lemma_ten_to_increases,
};
use crate::rounding::split;
use crate::text::{digit, digits, strip_trailing, stripped, two_digit_decimal, two_digits};
use crate::window::ratio;
use vstd::arithmetic::div_mod::{lemma_div_denominator, lemma_fundamental_div_mod_converse};
use vstd::arithmetic::power2::{lemma_pow2_adds, lemma_pow2_pos, pow2};
use vstd::prelude::*;
use vstd::string::*;

verus! {

/// Whether `num / den` is at least ten to the power of `e`.
pub open spec fn reaches(num: nat, den: nat, e: int) -> bool {
    if e >= 0 {
        den * ten_to(e as nat) <= num
    } else {
        den <= num * ten_to((-e) as nat)
    }
}

/// Whether the first digit of `num / den` stands for ten to the power of `e`.
pub open spec fn has_decade(num: nat, den: nat, e: int) -> bool {
    reaches(num, den, e) && !reaches(num, den, e + 1)
}

/// `num / den`, whose first digit stands for 10^`e`, rounded to `p` digits: the digits as a
/// whole number, and the power of ten that the first of them stands for.
pub open spec fn significant(num: nat, den: nat, p: int, e: int) -> (nat, int) {
    let n = if e < p {
        half_even(num * ten_to((p - 1 - e) as nat), den)
    } else {
        half_even(num, den * ten_to((e - p + 1) as nat))
    };
    if n == ten_to(p as nat) {
        (ten_to((p - 1) as nat), e + 1)
    } else {
        (n, e)
    }
}

/// The `p` digits of a number in the shortest form, the first of them standing for 10^`x`:
/// with an exponent below a ten-thousandth, and where the digits end before the point.
pub open spec fn general_text(n: nat, p: int, x: int) -> Seq<char> {
    if -4 <= x < p {
        stripped(fixed_text(n, (p - 1 - x) as nat))
    } else {
        stripped(fixed_text(n, (p - 1) as nat)) + seq![
            'e',
            if x < 0 {
                '-'
            } else {
                '+'
            },
        ] + two_digits(
            (if x < 0 {
                -x
            } else {
                x
            }) as nat,
        )
    }
}

/// `num / den` to `p` digits in the shortest form.
pub open spec fn ratio_text(num: nat, den: nat, p: int) -> Seq<char> {
    let e = choose|e: int| has_decade(num, den, e);
    let (n, x) = significant(num, den, p, e);
    general_text(n, p, x)
}

/// A number to `prec` digits, and at least one, in the shortest form.
pub open spec fn shortest_text(v: Double, prec: int) -> Seq<char> {
    let p = if prec < 1 {
        1
    } else {
        prec
    };
    if v.nan() {
        "nan"@
    } else {
        let text = if v.magnitude() == 0 {
            "0"@
        } else if v.magnitude() == INFINITE {
            "inf"@
        } else {
            ratio_text(scaled(v.magnitude()), pow2(1074), p)
        };
        if v.negative() {
            seq!['-'] + text
        } else {
            text
        }
    }
}

/// A tenth of a whole number, as a double.
pub open spec fn tenths(i: int) -> Double {
    product(ratio(1, 10), whole(i))
}

/// The label of tick `i`: a tenth of it to six digits, in the shortest form.
pub open spec fn tick_text(i: int) -> Seq<char> {
    shortest_text(tenths(i), 6)
}

/// The number that decimal digits spell, the lowest of them first.
pub open spec fn places_value(s: Seq<u8>) -> nat
    decreases s.len(),
{
    if s.len() == 0 {
        0
    } else {
        places_value(s.drop_last()) + s.last() as nat * ten_to((s.len() - 1) as nat)
    }
}

/// Whether all of them are digits.
pub open spec fn all_digits(s: Seq<u8>) -> bool {
    forall|i: int| 0 <= i < s.len() ==> #[trigger] s[i] < 10
}

proof fn lemma_places_below(s: Seq<u8>)
    requires
        all_digits(s),
    ensures
        places_value(s) < ten_to(s.len()),
    decreases s.len(),
{
    if s.len() > 0 {
        let init = s.drop_last();
        assert forall|i: int| 0 <= i < init.len() implies #[trigger] init[i] < 10 by {
            assert(s[i] < 10);
        }
        lemma_places_below(init);
        let t = ten_to(init.len());
        assert(s[s.len() - 1] < 10);
        assert(s.last() as nat * t <= 9 * t) by (nonlinear_arith)
            requires
                s.last() <= 9,
        ;
    }
}

/// The lowest `k` digits, and the others.
proof fn lemma_places_split(s: Seq<u8>, k: nat)
    requires
        k <= s.len(),
    ensures
        places_value(s) == places_value(s.take(k as int)) + ten_to(k) * places_value(
            s.skip(k as int),
        ),
    decreases s.len(),
{
    if k == s.len() {
        assert(s.take(k as int) =~= s);
        assert(s.skip(k as int) =~= Seq::empty());
        assert(ten_to(k) * 0 == 0);
    } else {
        let init = s.drop_last();
        lemma_places_split(init, k);
        assert(init.take(k as int) =~= s.take(k as int));
        assert(s.skip(k as int).drop_last() =~= init.skip(k as int));
        let m = (s.len() - 1 - k) as nat;
        lemma_ten_adds(k, m);
        let (x, y, z) = (ten_to(k) as int, ten_to(m) as int, s.last() as int);
        let w = places_value(init.skip(k as int)) as int;
        assert(x * w + z * (x * y) == x * (w + z * y)) by (nonlinear_arith);
    }
}

/// Digits without the first `k` of a number that they spell.
proof fn lemma_places_cut(s: Seq<u8>, k: nat)
    requires
        all_digits(s),
        k <= s.len(),
    ensures
        places_value(s) / ten_to(k) == places_value(s.skip(k as int)),
        places_value(s) % ten_to(k) == places_value(s.take(k as int)),
{
    lemma_places_split(s, k);
    let low = s.take(k as int);
    assert forall|i: int| 0 <= i < low.len() implies #[trigger] low[i] < 10 by {
        assert(s[i] < 10);
    }
    lemma_places_below(low);
    let (t, h) = (ten_to(k) as int, places_value(s.skip(k as int)) as int);
    assert(t * h == h * t) by (nonlinear_arith);
    lemma_fundamental_div_mod_converse(
        places_value(s) as int,
        t,
        h,
        places_value(low) as int,
    );
}

proof fn lemma_one_place(d: u8)
    ensures
        places_value(seq![d]) == d,
{
    let none = Seq::<u8>::empty();
    assert(seq![d].drop_last() =~= none);
    assert(places_value(none) == 0);
    assert(d as nat * ten_to(0) == d) by (nonlinear_arith)
        requires
            ten_to(0) == 1,
    ;
}

/// The digit at place `j`.
proof fn lemma_place(s: Seq<u8>, j: nat)
    requires
        all_digits(s),
    ensures
        places_value(s) / ten_to(j) % 10 == if j < s.len() {
            s[j as int] as nat
        } else {
            0
        },
{
    if j < s.len() {
        lemma_places_cut(s, j);
        let high = s.skip(j as int);
        assert forall|i: int| 0 <= i < high.len() implies #[trigger] high[i] < 10 by {
            assert(s[i + j] < 10);
        }
        lemma_places_cut(high, 1);
        assert(ten_to(1) == 10) by {
            reveal_with_fuel(ten_to, 2);
        }
        assert(high.take(1) =~= seq![s[j as int]]);
        lemma_one_place(s[j as int]);
    } else {
        lemma_places_below(s);
        lemma_ten_to_increases(s.len(), j);
        lemma_fundamental_div_mod_converse(
            places_value(s) as int,
            ten_to(j) as int,
            0,
            places_value(s) as int,
        );
    }
}

proof fn lemma_places_update(s: Seq<u8>, j: int, d: u8)
    requires
        0 <= j < s.len(),
    ensures
        places_value(s.update(j, d)) == places_value(s) + (d - s[j]) * ten_to(j as nat),
    decreases s.len(),
{
    let t = s.update(j, d);
    let unit = ten_to((s.len() - 1) as nat) as int;
    if j == s.len() - 1 {
        assert(t.drop_last() =~= s.drop_last());
        assert(d * unit == s[j] * unit + (d - s[j]) * unit) by (nonlinear_arith);
    } else {
        lemma_places_update(s.drop_last(), j, d);
        assert(t.drop_last() =~= s.drop_last().update(j, d));
    }
}

/// The first digit is not zero: so many digits are needed.
proof fn lemma_places_at_least(s: Seq<u8>)
    requires
        s.len() > 0,
        s.last() > 0,
    ensures
        places_value(s) >= ten_to((s.len() - 1) as nat),
{
    let t = ten_to((s.len() - 1) as nat);
    assert(s.last() as nat * t >= t) by (nonlinear_arith)
        requires
            s.last() >= 1,
    ;
}

/// A number in decimal is its last digits, as many as it has.
proof fn lemma_digits_are_last(n: nat, len: nat)
    requires
        len >= 1,
        n < ten_to(len),
        len > 1 ==> n >= ten_to((len - 1) as nat),
    ensures
        digits(n) == last_digits(n, len),
    decreases len,
{
    lemma_ten_to((len - 1) as nat);
    if len == 1 {
        assert(ten_to(1) == 10) by {
            reveal_with_fuel(ten_to, 2);
        }
        assert(last_digits(n / 10, 0) =~= Seq::empty());
        assert(last_digits(n, 1) =~= seq![digit(n)]);
    } else {
        lemma_ten_to((len - 2) as nat);
        assert(n >= 10);
        lemma_digits_are_last(n / 10, (len - 1) as nat);
    }
}

proof fn lemma_no_digits(n: nat)
    ensures
        last_digits(n, 0) == Seq::<char>::empty(),
{
}

/// Appends the digits at the places from `hi` down to `lo`, the one at `hi` left out.
fn push_places(out: &mut String, s: &Vec<u8>, hi: u128, lo: u128)
    requires
        all_digits(s@),
        lo <= hi,
    ensures
        final(out)@ == old(out)@ + last_digits(
            places_value(s@) / ten_to(lo as nat),
            (hi - lo) as nat,
        ),
{
    let ghost n = places_value(s@);
    let mut j: u128 = hi;
    proof {
        lemma_no_digits(n / ten_to(j as nat));
    }
    assert(out@ =~= old(out)@ + last_digits(n / ten_to(j as nat), 0));
    while j > lo
        invariant
            lo <= j <= hi,
            all_digits(s@),
            n == places_value(s@),
            out@ == old(out)@ + last_digits(n / ten_to(j as nat), (hi - j) as nat),
        decreases j,
    {
        let ghost before = n / ten_to(j as nat);
        j = j - 1;
        let d: u8 = if j < s.len() as u128 {
            s[j as usize]
        } else {
            0
        };
        proof {
            lemma_place(s@, j as nat);
            lemma_ten_to(j as nat);
            let t = ten_to(j as nat) as int;
            lemma_div_denominator(n as int, t, 10);
            assert(t * 10 == ten_to((j + 1) as nat));
            assert(before == n / ten_to(j as nat) / 10);
        }
        let ghost had = out@;
        out.push((d + 48) as char);
        proof {
            assert(last_digits(n / ten_to(j as nat), (hi - j) as nat) =~= last_digits(
                before,
                (hi - j - 1) as nat,
            ).push(digit(d as nat)));
            assert(out@ =~= old(out)@ + last_digits(n / ten_to(j as nat), (hi - j) as nat));
        }
    }
}

/// Digits as a number with `k` of them behind the point.
fn fixed_places(s: &Vec<u8>, k: u128) -> (text: String)
    requires
        all_digits(s@),
        s@.len() > 0,
        s@.last() > 0,
        k <= u128::MAX - 1,
    ensures
        text@ == fixed_text(places_value(s@), k as nat),
{
    let ghost n = places_value(s@);
    let len = s.len() as u128;
    let mut text: String = String::new();
    proof {
        lemma_places_below(s@);
        lemma_places_at_least(s@);
        assert(ten_to(0) == 1);
        assert(n / 1 == n);
    }
    if k < len {
        push_places(&mut text, s, len, k);
        proof {
            lemma_places_cut(s@, k as nat);
            let high = s@.skip(k as int);
            assert forall|i: int| 0 <= i < high.len() implies #[trigger] high[i] < 10 by {
                assert(s@[i + k] < 10);
            }
            lemma_places_below(high);
            lemma_places_at_least(high);
            lemma_digits_are_last(places_value(high), (len - k) as nat);
            assert(text@ =~= digits(n / ten_to(k as nat)));
        }
    } else {
        text.push('0');
        proof {
            lemma_ten_to_increases(len as nat, k as nat);
            lemma_fundamental_div_mod_converse(n as int, ten_to(k as nat) as int, 0, n as int);
            assert(digit(0) == '0');
            assert(text@ =~= digits(0));
        }
    }
    if k > 0 {
        text.push('.');
        push_places(&mut text, s, k, 0);
    }
    text
}

/// The digits of a number of more than no digits, the lowest of them first.
fn spell(n: Large) -> (s: Vec<u8>)
    requires
        n@ > 0,
    ensures
        all_digits(s@),
        s@.len() > 0,
        s@.last() > 0,
        places_value(s@) == n@,
{
    let mut rest = n;
    let zero = Large::zero();
    let mut s: Vec<u8> = Vec::new();
    let ghost start = n@;
    assert(start * 1 == start);
    while !rest.at_most(&zero)
        invariant
            all_digits(s@),
            zero@ == 0,
            start > 0,
            places_value(s@) + rest@ * ten_to(s@.len()) == start,
            rest@ == 0 ==> s@.len() > 0 && s@.last() > 0,
        decreases rest@,
    {
        let ghost x = rest@;
        let ghost had = s@;
        let d = rest.tenth();
        s.push(d);
        proof {
            assert(s@.drop_last() =~= had);
            let t = ten_to(had.len()) as int;
            let q = rest@ as int;
            assert(x == 10 * q + d);
            assert(x * t == d * t + q * (10 * t)) by (nonlinear_arith)
                requires
                    x == 10 * q + d,
            ;
        }
    }
    assert(0 * ten_to(s@.len()) == 0);
    s
}

/// A finite magnitude, written out: the digits of a whole number, and how many of them
/// stand behind the point.
fn exact_places(mag: u64) -> (r: (Vec<u8>, u32))
    requires
        0 < mag < INFINITE,
    ensures
        all_digits(r.0@),
        r.0@.len() > 0,
        r.0@.last() > 0,
        r.1 <= 1074,
        scaled(mag) * ten_to(r.1 as nat) == places_value(r.0@) * pow2(1074),
{
    let (m, t) = split(mag);
    let mut n = Large::zero();
    n.scale(1, m);
    let ghost u = pow2(t as nat);
    if t >= 1074 {
        n.double_up((t - 1074) as u32);
        proof {
            let x = pow2((t - 1074) as nat) as int;
            lemma_pow2_adds((t - 1074) as nat, 1074);
            lemma_pow2_pos((t - 1074) as nat);
            let unit = pow2(1074) as int;
            assert(m * (x * unit) * 1 == (m * x) * unit) by (nonlinear_arith);
            assert(m * x > 0) by (nonlinear_arith)
                requires
                    m > 0,
                    x > 0,
            ;
        }
        (spell(n), 0)
    } else {
        let k = (1074 - t) as u32;
        n.five_up(k);
        proof {
            lemma_pow2_adds(t as nat, k as nat);
            let (p, x) = (pow2(k as nat) as int, n@ as int);
            let ten = ten_to(k as nat) as int;
            lemma_ten_to(k as nat);
            lemma_pow2_pos(k as nat);
            assert((m * u) * ten == x * (u * p)) by (nonlinear_arith)
                requires
                    x * p == m * ten,
            ;
            assert(x > 0) by (nonlinear_arith)
                requires
                    x * p == m * ten,
                    m > 0,
                    ten > 0,
                    x >= 0,
            ;
        }
        (spell(n), k)
    }
}

/// How a power of ten compares, from the number written out.
proof fn lemma_reaches(num: nat, den: nat, n: nat, k: nat, e: int)
    requires
        den > 0,
        num * ten_to(k) == n * den,
        e + k >= 0,
    ensures
        reaches(num, den, e) <==> ten_to((e + k) as nat) <= n,
{
    let t = ten_to(k) as int;
    lemma_ten_to(k);
    if e >= 0 {
        let a = ten_to(e as nat) as int;
        lemma_ten_adds(e as nat, k);
        assert(den * a <= num <==> a * t <= n) by (nonlinear_arith)
            requires
                num * t == n * den,
                den > 0,
                t > 0,
                a >= 0,
        ;
    } else {
        let b = ten_to((-e) as nat) as int;
        let c = ten_to((e + k) as nat) as int;
        lemma_ten_adds((-e) as nat, (e + k) as nat);
        lemma_ten_to((e + k) as nat);
        assert(den <= num * b <==> c <= n) by (nonlinear_arith)
            requires
                num * t == n * den,
                t == b * c,
                den > 0,
                c > 0,
                b >= 0,
        ;
    }
}

proof fn lemma_reaches_less(num: nat, den: nat, a: int, b: int)
    requires
        a <= b,
        reaches(num, den, b),
    ensures
        reaches(num, den, a),
    decreases b - a,
{
    if a < b {
        if b - 1 >= 0 {
            lemma_ten_to((b - 1) as nat);
            let x = ten_to((b - 1) as nat);
            assert(den * x <= den * (10 * x)) by (nonlinear_arith);
        } else {
            lemma_ten_to((-b) as nat);
            let x = ten_to((-b) as nat);
            assert(num * x <= num * (10 * x)) by (nonlinear_arith);
            if b == 0 {
                assert(ten_to(0) == 1);
                assert(den * 1 == den);
                assert(num * 1 == num);
            }
        }
        lemma_reaches_less(num, den, a, b - 1);
    }
}

/// There is one decade.
proof fn lemma_decade(num: nat, den: nat, e: int)
    requires
        has_decade(num, den, e),
    ensures
        (choose|c: int| has_decade(num, den, c)) == e,
{
    let c = choose|c: int| has_decade(num, den, c);
    assert(has_decade(num, den, c));
    if c < e {
        lemma_reaches_less(num, den, c + 1, e);
    } else if e < c {
        lemma_reaches_less(num, den, e + 1, c);
    }
}

/// Rounding a number is rounding it written out.
proof fn lemma_rounded_places(num: nat, den: nat, n: nat, k: nat, len: nat, p: nat)
    requires
        den > 0,
        p > 0,
        len > 0,
        num * ten_to(k) == n * den,
    ensures
        ({
            let e = len - 1 - k;
            let m = if e < p {
                half_even(num * ten_to((p - 1 - e) as nat), den)
            } else {
                half_even(num, den * ten_to((e - p + 1) as nat))
            };
            m == if len <= p {
                n * ten_to((p - len) as nat)
            } else {
                half_even(n, ten_to((len - p) as nat))
            }
        }),
{
    let e = len - 1 - k;
    let t = ten_to(k);
    lemma_ten_to(k);
    if e < p {
        let g = ten_to((p - 1 - e) as nat);
        lemma_ten_to((p - 1 - e) as nat);
        lemma_half_even_scales(num * g, den, t);
        assert((num * g) * t == (n * g) * den) by (nonlinear_arith)
            requires
                num * t == n * den,
        ;
        assert(den * t == t * den) by (nonlinear_arith);
        lemma_half_even_scales(n * g, t, den);
        if len <= p {
            let z = ten_to((p - len) as nat);
            lemma_ten_adds((p - len) as nat, k);
            assert(n * (z * t) == (n * z) * t) by (nonlinear_arith);
            lemma_half_even_scales(n * z, 1, t);
            assert(1 * t == t);
            lemma_fundamental_div_mod_converse((n * z) as int, 1, (n * z) as int, 0);
        } else {
            let c = ten_to((len - p) as nat);
            lemma_ten_adds((len - p) as nat, (p - 1 - e) as nat);
            lemma_ten_to((len - p) as nat);
            lemma_half_even_scales(n, c, g);
        }
    } else {
        let g = ten_to((e - p + 1) as nat);
        let c = ten_to((len - p) as nat);
        lemma_ten_to((e - p + 1) as nat);
        lemma_ten_to((len - p) as nat);
        lemma_ten_adds((e - p + 1) as nat, k);
        assert(den * g > 0) by (nonlinear_arith)
            requires
                den > 0,
                g >= 1,
        ;
        lemma_half_even_scales(num, den * g, t);
        assert((den * g) * t == (g * t) * den) by (nonlinear_arith);
        lemma_half_even_scales(n, c, den);
    }
}

/// Whether what is cut off below `cut` rounds up.
fn rounds_up(s: &Vec<u8>, cut: usize) -> (up: bool)
    requires
        all_digits(s@),
        0 < cut < s@.len(),
    ensures
        ({
            let t = ten_to(cut as nat);
            let rem = places_value(s@.take(cut as int));
            up == (2 * rem > t || (2 * rem == t && places_value(s@.skip(cut as int)) % 2 == 1))
        }),
{
    let top: u8 = s[cut - 1];
    let mut i: usize = cut - 1;
    let mut more = false;
    let ghost low = s@.take(cut as int);
    let ghost under = s@.take(cut - 1);
    assert(under.skip(cut - 1) =~= Seq::empty());
    while i > 0
        invariant
            i <= cut - 1,
            cut < s@.len(),
            under == s@.take(cut - 1),
            more == (exists|j: int| i <= j < cut - 1 && s@[j] != 0),
        decreases i,
    {
        i = i - 1;
        let ghost was = more;
        if s[i] != 0 {
            more = true;
        } else if more {
            assert(exists|j: int| i <= j < cut - 1 && s@[j] != 0);
        }
    }
    proof {
        assert(low.drop_last() =~= under);
        assert forall|j: int| 0 <= j < under.len() implies #[trigger] under[j] < 10 by {
            assert(s@[j] < 10);
        }
        lemma_places_below(under);
        lemma_places_zero(under);
        assert(more == (exists|j: int| 0 <= j < under.len() && under[j] != 0)) by {
            if more {
                let j = choose|j: int| 0 <= j < cut - 1 && s@[j] != 0;
                assert(under[j] != 0);
            }
            if exists|j: int| 0 <= j < under.len() && under[j] != 0 {
                let j = choose|j: int| 0 <= j < under.len() && under[j] != 0;
                assert(s@[j] != 0);
            }
        }
        let t = ten_to((cut - 1) as nat);
        assert(low.last() == top);
        assert(places_value(low) == places_value(under) + top as nat * t);
        assert(ten_to(cut as nat) == 10 * t);
        if top < 5 {
            assert(top as nat * t <= 4 * t) by (nonlinear_arith)
                requires
                    top <= 4,
            ;
        } else if top > 5 {
            assert(top as nat * t >= 6 * t) by (nonlinear_arith)
                requires
                    top >= 6,
            ;
        } else {
            assert(top as nat * t == 5 * t);
        }
        lemma_ten_to((cut - 1) as nat);
        let high = s@.skip(cut as int);
        assert forall|j: int| 0 <= j < high.len() implies #[trigger] high[j] < 10 by {
            assert(s@[j + cut] < 10);
        }
        lemma_place(high, 0);
        assert(places_value(high) / 1 == places_value(high));
    }
    top > 5 || (top == 5 && (more || s[cut] % 2 == 1))
}

/// Digits spell zero when all of them are.
proof fn lemma_places_zero(s: Seq<u8>)
    ensures
        places_value(s) == 0 <==> !(exists|j: int| 0 <= j < s.len() && s[j] != 0),
    decreases s.len(),
{
    if s.len() > 0 {
        let init = s.drop_last();
        lemma_places_zero(init);
        let t = ten_to(init.len());
        lemma_ten_to(init.len());
        assert(s.last() as nat * t == 0 <==> s.last() == 0) by (nonlinear_arith)
            requires
                t >= 1,
        ;
        if exists|j: int| 0 <= j < init.len() && init[j] != 0 {
            let j = choose|j: int| 0 <= j < init.len() && init[j] != 0;
            assert(s[j] != 0);
        }
        if s.last() != 0 {
            assert(s[s.len() - 1] != 0);
        }
        if exists|j: int| 0 <= j < s.len() && s[j] != 0 {
            let j = choose|j: int| 0 <= j < s.len() && s[j] != 0;
            if j < init.len() {
                assert(init[j] != 0);
            }
        }
    }
}

/// Adds one. `true` where that takes one more digit: the digits are then those of the
/// power of ten with as many as before.
fn count_up(s: &mut Vec<u8>) -> (over: bool)
    requires
        all_digits(old(s)@),
        old(s)@.len() > 0,
        old(s)@.last() > 0,
    ensures
        all_digits(final(s)@),
        final(s)@.len() == old(s)@.len(),
        final(s)@.last() > 0,
        over == (places_value(old(s)@) + 1 == ten_to(old(s)@.len())),
        places_value(final(s)@) == if over {
            ten_to((old(s)@.len() - 1) as nat)
        } else {
            places_value(old(s)@) + 1
        },
{
    let len = s.len();
    let ghost start = places_value(s@);
    let mut j: usize = 0;
    while j < len && s[j] == 9
        invariant
            j <= len == s@.len() == old(s)@.len(),
            all_digits(s@),
            start == places_value(old(s)@),
            places_value(s@) + ten_to(j as nat) == start + 1,
            forall|i: int| 0 <= i < j ==> s@[i] == 0,
            forall|i: int| j <= i < len ==> s@[i] == old(s)@[i],
        decreases len - j,
    {
        let ghost before = s@;
        s.set(j, 0);
        proof {
            lemma_places_update(before, j as int, 0);
            let t = ten_to(j as nat) as int;
            assert((0 - 9) * t == -9 * t);
        }
        j = j + 1;
    }
    let ghost mid = s@;
    if j < len {
        proof {
            lemma_places_below(old(s)@);
            lemma_places_update(mid, j as int, (mid[j as int] + 1) as u8);
            let t = ten_to(j as nat) as int;
            assert(1 * t == t);
        }
        let d: u8 = s[j] + 1;
        s.set(j, d);
        proof {
            lemma_places_below(s@);
            assert(places_value(s@) == start + 1);
        }
        false
    } else {
        proof {
            lemma_places_zero(mid);
            lemma_places_update(mid, len - 1, 1);
            let t = ten_to((len - 1) as nat) as int;
            assert((1 - 0) * t == t);
        }
        s.set(len - 1, 1);
        true
    }
}

/// `p` digits of a number written out: rounded, or with zeros behind them. `true` where
/// rounding has led to one digit more before the point.
fn round_places(s: Vec<u8>, p: usize) -> (r: (Vec<u8>, bool))
    requires
        all_digits(s@),
        s@.len() > 0,
        s@.last() > 0,
        p > 0,
    ensures
        all_digits(r.0@),
        r.0@.len() == p,
        r.0@.last() > 0,
        ({
            let n = places_value(s@);
            let len = s@.len();
            let m = if len <= p {
                n * ten_to((p - len) as nat)
            } else {
                half_even(n, ten_to((len - p) as nat))
            };
            &&& r.1 == (m == ten_to(p as nat))
            &&& places_value(r.0@) == if r.1 {
                ten_to((p - 1) as nat)
            } else {
                m
            }
        }),
{
    let len = s.len();
    let mut out: Vec<u8> = Vec::new();
    if len <= p {
        let zeros: usize = p - len;
        let mut i: usize = 0;
        while i < p
            invariant
                i <= p,
                zeros == p - len,
                len == s@.len() <= p,
                all_digits(s@),
                out@.len() == i,
                forall|j: int|
                    0 <= j < i ==> #[trigger] out@[j] == if j < zeros {
                        0
                    } else {
                        s@[j - zeros]
                    },
            decreases p - i,
        {
            let d: u8 = if i < zeros {
                0
            } else {
                s[i - zeros]
            };
            out.push(d);
            i = i + 1;
        }
        proof {
            assert(out@.skip(zeros as int) =~= s@);
            lemma_places_split(out@, zeros as nat);
            lemma_places_zero(out@.take(zeros as int));
            let (t, n) = (ten_to(zeros as nat) as int, places_value(s@) as int);
            assert(t * n == n * t) by (nonlinear_arith);
            assert(all_digits(out@));
            lemma_places_below(out@);
        }
        (out, false)
    } else {
        let cut: usize = len - p;
        let up = rounds_up(&s, cut);
        let mut i: usize = cut;
        while i < len
            invariant
                0 < cut <= i <= len == s@.len(),
                out@ =~= s@.subrange(cut as int, i as int),
            decreases len - i,
        {
            out.push(s[i]);
            i = i + 1;
        }
        proof {
            assert(out@ =~= s@.skip(cut as int));
            assert forall|j: int| 0 <= j < out@.len() implies #[trigger] out@[j] < 10 by {
                assert(s@[j + cut] < 10);
            }
            lemma_places_cut(s@, cut as nat);
            lemma_places_below(out@);
        }
        let mut over = false;
        if up {
            over = count_up(&mut out);
        }
        (out, over)
    }
}

/// The digits of a number in the shortest form.
fn general(s: &Vec<u8>, p: usize, x: i128) -> (text: String)
    requires
        all_digits(s@),
        s@.len() == p,
        p > 0,
        s@.last() > 0,
        -0x1_0000 <= x <= 0xFFFF_FFFF_FFFF_FFFF,
    ensures
        text@ == general_text(places_value(s@), p as int, x as int),
{
    if -4 <= x && x < p as i128 {
        let fixed = fixed_places(s, (p as i128 - 1 - x) as u128);
        strip_trailing(fixed.as_str())
    } else {
        let fixed = fixed_places(s, (p - 1) as u128);
        let mut text = strip_trailing(fixed.as_str());
        let ghost head = text@;
        text.push('e');
        let size: i128 = if x < 0 {
            text.push('-');
            -x
        } else {
            text.push('+');
            x
        };
        let tail = two_digit_decimal(size as u64);
        text.append(tail.as_str());
        assert(text@ =~= general_text(places_value(s@), p as int, x as int));
        text
    }
}

/// A positive magnitude to `p` digits in the shortest form.
fn magnitude_text(mag: u64, p: usize) -> (text: String)
    requires
        0 < mag < INFINITE,
        p > 0,
    ensures
        text@ == ratio_text(scaled(mag), pow2(1074), p as int),
{
    let (s, k) = exact_places(mag);
    let ghost (num, den, n, len) = (scaled(mag), pow2(1074), places_value(s@), s@.len());
    let e: i128 = s.len() as i128 - 1 - k as i128;
    proof {
        lemma_pow2_pos(1074);
        lemma_places_below(s@);
        lemma_places_at_least(s@);
        lemma_reaches(num, den, n, k as nat, e as int);
        lemma_reaches(num, den, n, k as nat, e + 1);
        lemma_decade(num, den, e as int);
        lemma_rounded_places(num, den, n, k as nat, len, p as nat);
    }
    let (out, over) = round_places(s, p);
    let x: i128 = if over {
        e + 1
    } else {
        e
    };
    general(&out, p, x)
}

/// A number to `prec` digits, and at least one, in the shortest form.
pub fn fmt_g(val: Double, prec: usize) -> (text: String)
    ensures
        text@ == shortest_text(val, prec as int),
{
    let p: usize = if prec == 0 {
        1
    } else {
        prec
    };
    let mag: u64 = val.bits % SIGN;
    if mag > INFINITE {
        return "nan".to_string();
    }
    let size = if mag == 0 {
        "0".to_string()
    } else if mag == INFINITE {
        "inf".to_string()
    } else {
        magnitude_text(mag, p)
    };
    if val.bits >= SIGN {
        let mut text: String = String::new();
        text.push('-');
        text.append(size.as_str());
        assert(text@ =~= shortest_text(val, prec as int));
        text
    } else {
        size
    }
}

} // verus!
