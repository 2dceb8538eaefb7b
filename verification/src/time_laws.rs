//! What the usual ways of writing a duration mean.
use crate::arith::{sum, whole};
use crate::bounds::{
    and_half, lemma_half, lemma_sum_at_least, lemma_sum_at_most, lemma_whole, lemma_whole_and_half,
    lemma_whole_part_between, lemma_whole_product, lemma_whole_sum,
};
use crate::decimal::ten_to;
use crate::double::Double;
use crate::timeparse::{
    as_count, clamped, count_at, decimal_at, digits_at, exponent_at, half, has_digit, is_digit,
    is_number_char, is_time, number, parts_at, past_digits, past_exponent, past_fixed, past_number,
    past_sign, past_spaces, places_at, says_time, term_at, term_count, terms_at, time_at, time_sum,
    total, whole_at, StepView, TermView, TimeError,
};
use vstd::arithmetic::power2::{lemma_pow2_pos, pow2};
use vstd::prelude::*;

verus! {

/// Whether a string is one or more digits.
pub open spec fn all_digits(b: Seq<u8>) -> bool {
    b.len() > 0 && forall|i: int| 0 <= i < b.len() ==> is_digit(#[trigger] b[i])
}

/// The number that a string of digits spells.
pub open spec fn spelled(b: Seq<u8>) -> int {
    number(b, 0, b.len() as int) as int
}

pub proof fn lemma_past_digits(b: Seq<u8>, from: int, to: int)
    requires
        0 <= from <= to <= b.len(),
        forall|i: int| from <= i < to ==> is_digit(#[trigger] b[i]),
        to < b.len() ==> !is_digit(b[to]),
    ensures
        past_digits(b, from) == to,
    decreases to - from,
{
    if from < to {
        assert(is_digit(b[from]));
        lemma_past_digits(b, from + 1, to);
    }
}

proof fn lemma_past_number(b: Seq<u8>, from: int)
    requires
        0 <= from <= b.len(),
        forall|i: int| from <= i < b.len() ==> is_number_char(#[trigger] b[i]),
    ensures
        past_number(b, from) == b.len(),
    decreases b.len() - from,
{
    if from < b.len() {
        lemma_past_number(b, from + 1);
    }
}

/// A number is the same wherever its digits stand.
pub proof fn lemma_number_moves(b: Seq<u8>, from: int, to: int, d: Seq<u8>)
    requires
        0 <= from <= to <= b.len(),
        d.len() >= to - from,
        forall|i: int| 0 <= i < to - from ==> b[from + i] == #[trigger] d[i],
    ensures
        number(b, from, to) == number(d, 0, to - from),
    decreases to - from,
{
    if from < to {
        lemma_number_moves(b, from, to - 1, d);
        assert(b[from + (to - 1 - from)] == d[to - 1 - from]);
    }
}

/// The digits `d` standing at `from`, with something else or nothing behind them,
/// are read as the whole number that they spell.
proof fn lemma_whole_at(b: Seq<u8>, from: int, d: Seq<u8>)
    requires
        all_digits(d),
        0 <= from,
        from + d.len() <= b.len(),
        b.subrange(from, from + d.len()) == d,
        from + d.len() < b.len() ==> !is_digit(b[from + d.len()]),
    ensures
        whole_at(b, from) == (clamped(spelled(d)), from + d.len()),
{
    let to = from + d.len();
    assert forall|i: int| 0 <= i < d.len() implies b[from + i] == #[trigger] d[i] by {
        assert(b.subrange(from, to)[i] == b[from + i]);
    }
    assert forall|i: int| from <= i < to implies is_digit(#[trigger] b[i]) by {
        assert(b[from + (i - from)] == d[i - from]);
    }
    assert(is_digit(b[from]));
    assert(past_spaces(b, from) == from);
    assert(past_sign(b, from) == from);
    lemma_past_digits(b, from, to);
    lemma_number_moves(b, from, to, d);
}

/// A number of digits alone is a time in seconds, where such a number is a time.
pub proof fn law_number_is_seconds(b: Seq<u8>, minus: bool)
    requires
        all_digits(b),
    ensures
        terms_at(b, 0, minus, 116) == Ok::<Seq<StepView>, TimeError>(
            seq![
                StepView {
                    minus,
                    term: TermView::Time {
                        whole: seq![clamped(spelled(b))],
                        colons: 0,
                        fraction: None,
                    },
                },
            ],
        ),
{
    let n = b.len() as int;
    assert(b.subrange(0, n) =~= b);
    assert(is_digit(b[0]) && is_digit(b[n - 1]));
    assert(past_spaces(b, 0) == 0);
    assert forall|i: int| 0 <= i < n implies is_number_char(#[trigger] b[i]) by {
        assert(is_digit(b[i]));
    }
    lemma_past_number(b, 0);
    assert(!b.contains(101)) by {
        assert forall|i: int| 0 <= i < n implies b[i] != 101 by {
            assert(is_digit(b[i]));
        }
    }
    lemma_whole_at(b, 0, b);
    assert(parts_at(b, 0, 0) == Ok::<(Seq<i64>, nat, int), TimeError>(
        (seq![clamped(spelled(b))], 0, n),
    ));
    assert(term_at(b, 0, 116) is Ok);
}

/// The same behind something else.
proof fn lemma_number_is_seconds_behind(b: Seq<u8>, from: int, minus: bool)
    requires
        0 <= from < b.len(),
        all_digits(b.skip(from)),
    ensures
        terms_at(b, from, minus, 116) == Ok::<Seq<StepView>, TimeError>(
            seq![
                StepView {
                    minus,
                    term: TermView::Time {
                        whole: seq![clamped(spelled(b.skip(from)))],
                        colons: 0,
                        fraction: None,
                    },
                },
            ],
        ),
{
    let n = b.len() as int;
    let d = b.skip(from);
    assert(b.subrange(from, n) =~= d);
    assert forall|i: int| from <= i < n implies is_digit(#[trigger] b[i]) by {
        assert(is_digit(d[i - from]));
    }
    assert(is_digit(b[from]) && is_digit(b[n - 1]));
    assert(past_spaces(b, from) == from);
    assert forall|i: int| from <= i < n implies is_number_char(#[trigger] b[i]) by {
        assert(is_digit(b[i]));
    }
    lemma_past_number(b, from);
    assert(!d.contains(101)) by {
        assert forall|i: int| 0 <= i < d.len() implies d[i] != 101 by {
            assert(is_digit(d[i]));
        }
    }
    lemma_whole_at(b, from, d);
    assert(parts_at(b, from, 0) == Ok::<(Seq<i64>, nat, int), TimeError>(
        (seq![clamped(spelled(d))], 0, n),
    ));
    assert(term_at(b, from, 116) is Ok);
}

/// A number of digits alone, counted forwards from `base` or backwards, wherever it stands.
pub proof fn law_seconds_move_a_place(b: Seq<u8>, from: int, minus: bool, base: u64, rate: int)
    requires
        0 <= from < b.len(),
        all_digits(b.skip(from)),
        1 <= rate <= 0x20_0000_0000_0000,
        spelled(b.skip(from)) * rate <= 0x20_0000_0000_0000,
        !minus ==> base + spelled(b.skip(from)) * rate <= u64::MAX,
    ensures
        terms_at(b, from, minus, 116) matches Ok(steps) && total(
            base,
            steps,
            whole(rate),
            steps.len(),
        ) == if !minus {
            base + spelled(b.skip(from)) * rate
        } else if spelled(b.skip(from)) * rate <= base {
            base - spelled(b.skip(from)) * rate
        } else {
            0
        },
{
    reveal(term_count);
    let n = spelled(b.skip(from));
    lemma_number_is_seconds_behind(b, from, minus);
    assert(n <= n * rate) by (nonlinear_arith)
        requires
            0 <= n,
            1 <= rate,
    ;
    let steps = terms_at(b, from, minus, 116)->Ok_0;
    let parts = seq![clamped(n)];
    let term = TermView::Time { whole: parts, colons: 0, fraction: None };
    assert(steps[0].term == term);
    assert(rate * n == n * rate) by (nonlinear_arith);
    lemma_whole_product(rate, n);
    lemma_whole_sum(0, rate * n);
    assert(time_sum(whole(rate), parts, 0, 0) == whole(0));
    assert(time_sum(whole(rate), parts, 0, 1) == whole(rate * n));
    lemma_count_of_whole(rate * n);
    assert(term_count(term, whole(rate)) == n * rate);
    assert(total(base, steps, whole(rate), 0) == base);
    assert(total(base, steps, whole(rate), 1) == if !minus {
        base + n * rate
    } else if n * rate <= base {
        base - n * rate
    } else {
        0
    });
}

/// A number of digits and an `s` is that number of samples.
pub proof fn law_number_with_s_is_samples(d: Seq<u8>, minus: bool, def: u8)
    requires
        all_digits(d),
    ensures
        terms_at(d.push(115), 0, minus, def) == Ok::<Seq<StepView>, TimeError>(
            seq![
                StepView { minus, term: TermView::Samples(whole(spelled(d))) },
            ],
        ),
{
    let b = d.push(115);
    let n = d.len() as int;
    assert(b.subrange(0, n + 1) =~= b);
    assert(is_digit(d[0]) && is_digit(d[n - 1]));
    assert forall|i: int| 0 <= i < n implies is_digit(#[trigger] b[i]) by {
        assert(is_digit(d[i]));
    }
    assert(is_digit(b[0]) && is_digit(b[n - 1]));
    assert(past_spaces(b, 0) == 0);
    lemma_past_number(b, 0);
    assert forall|c: u8| c == 58 || c == 46 || c == 101 implies !b.contains(c) by {
        assert forall|i: int| 0 <= i < n + 1 implies b[i] != c by {
            if i < n {
                assert(is_digit(b[i]));
            }
        }
    }
    assert(!says_time(b));
    lemma_past_digits(b, 0, n);
    assert(past_sign(b, 0) == 0);
    assert(has_digit(b, 0));
    assert(past_fixed(b, 0) == n);
    assert(past_exponent(b, n) == n);
    lemma_number_moves(b, 0, n, d);
    assert(digits_at(b, 0) == number(d, 0, n) && places_at(b, 0) == 0);
    assert(exponent_at(b, n) == 0);
    assert(number(d, 0, n) * ten_to(0) == number(d, 0, n)) by (nonlinear_arith)
        requires
            ten_to(0) == 1,
    ;
    assert(decimal_at(b, 0) == Some((whole(spelled(d)), n)));
    assert(count_at(b, 0) == Ok::<(TermView, int), TimeError>(
        (TermView::Samples(whole(spelled(d))), n + 1),
    ));
    assert(term_at(b, 0, def) is Ok);
}

/// Hours, minutes and seconds between colons.
pub proof fn law_clock_time(h: Seq<u8>, m: Seq<u8>, s: Seq<u8>, minus: bool, def: u8)
    requires
        all_digits(h),
        all_digits(m),
        all_digits(s),
    ensures
        terms_at(h + seq![58u8] + m + seq![58u8] + s, 0, minus, def) == Ok::<
            Seq<StepView>,
            TimeError,
        >(
            seq![
                StepView {
                    minus,
                    term: TermView::Time {
                        whole: seq![
                            clamped(spelled(h)),
                            clamped(spelled(m)),
                            clamped(spelled(s)),
                        ],
                        colons: 2,
                        fraction: None,
                    },
                },
            ],
        ),
{
    let b = h + seq![58u8] + m + seq![58u8] + s;
    let n = b.len() as int;
    let at_m = h.len() as int + 1;
    let at_s = at_m + m.len() + 1;
    assert(b.subrange(0, n) =~= b);
    assert(b.subrange(0, h.len() as int) =~= h);
    assert(b.subrange(at_m, at_m + m.len()) =~= m);
    assert(b.subrange(at_s, n) =~= s);
    assert(b[h.len() as int] == 58 && b[at_m + m.len()] == 58);
    assert forall|i: int| 0 <= i < n implies is_digit(#[trigger] b[i]) || b[i] == 58 by {
        if i < h.len() {
            assert(b[i] == h[i] && is_digit(h[i]));
        } else if at_m <= i < at_m + m.len() {
            assert(b[i] == m[i - at_m] && is_digit(m[i - at_m]));
        } else if at_s <= i {
            assert(b[i] == s[i - at_s] && is_digit(s[i - at_s]));
        }
    }
    assert(b[0] == h[0] && is_digit(h[0]));
    assert(b[at_m] == m[0] && is_digit(m[0]));
    assert(b[at_s] == s[0] && is_digit(s[0]));
    assert(past_spaces(b, 0) == 0);
    assert forall|i: int| 0 <= i < n implies is_number_char(#[trigger] b[i]) by {
        assert(is_digit(b[i]) || b[i] == 58);
    }
    lemma_past_number(b, 0);
    assert(b.contains(58));
    assert(!b.contains(101)) by {
        assert forall|i: int| 0 <= i < n implies b[i] != 101 by {
            assert(is_digit(b[i]) || b[i] == 58);
        }
    }
    assert(is_time(b, def));
    lemma_whole_at(b, 0, h);
    lemma_whole_at(b, at_m, m);
    lemma_whole_at(b, at_s, s);
    lemma_clock(
        b,
        h.len() as int,
        at_m + m.len(),
        clamped(spelled(h)),
        clamped(spelled(m)),
        clamped(spelled(s)),
    );
    assert(term_at(b, 0, def) == time_at(b, 0));
}

/// Three numbers with a colon between each two of them.
proof fn lemma_clock(b: Seq<u8>, p: int, q: int, x: i64, y: i64, z: i64)
    requires
        0 < p < q - 1,
        q < b.len() - 1,
        b[0] != 46,
        b[p + 1] != 46,
        b[q + 1] != 46,
        whole_at(b, 0) == (x, p),
        whole_at(b, p + 1) == (y, q),
        whole_at(b, q + 1) == (z, b.len() as int),
        b[p] == 58,
        b[q] == 58,
    ensures
        time_at(b, 0) == Ok::<(TermView, int), TimeError>(
            (
                TermView::Time { whole: seq![x, y, z], colons: 2, fraction: None },
                b.len() as int,
            ),
        ),
{
    let n = b.len() as int;
    assert(parts_at(b, q + 1, 2) == Ok::<(Seq<i64>, nat, int), TimeError>((seq![z], 0, n)));
    assert(parts_at(b, p + 1, 1) == Ok::<(Seq<i64>, nat, int), TimeError>(
        (seq![y] + seq![z], 1, n),
    ));
    assert(parts_at(b, 0, 0) == Ok::<(Seq<i64>, nat, int), TimeError>(
        (seq![x] + (seq![y] + seq![z]), 2, n),
    ));
    assert(seq![x] + (seq![y] + seq![z]) =~= seq![x, y, z]);
}

/// A whole number of samples is counted as it is.
proof fn lemma_count_of_whole(n: int)
    requires
        0 <= n <= 0x20_0000_0000_0000,
    ensures
        as_count(whole(n)) == n,
{
    lemma_whole(n);
    lemma_pow2_pos(1074);
    let unit = pow2(1074) as int;
    assert((n + 1) * unit == n * unit + unit) by (nonlinear_arith);
    lemma_whole_part_between(whole(n), n, n as nat);
}

/// A number of digits alone comes to that many seconds in samples.
pub proof fn law_bare_number_counts_seconds(b: Seq<u8>, rate: int)
    requires
        all_digits(b),
        1 <= rate <= 0x20_0000_0000_0000,
        spelled(b) * rate <= 0x20_0000_0000_0000,
    ensures
        terms_at(b, 0, false, 116) matches Ok(steps) && total(0, steps, whole(rate), steps.len())
            == spelled(b) * rate,
{
    reveal(term_count);
    let n = spelled(b);
    law_number_is_seconds(b, false);
    assert(n <= n * rate) by (nonlinear_arith)
        requires
            0 <= n,
            1 <= rate,
    ;
    let steps = terms_at(b, 0, false, 116)->Ok_0;
    let parts = seq![clamped(n)];
    assert(steps[0].term == (TermView::Time { whole: parts, colons: 0, fraction: None }));
    assert(rate * n == n * rate) by (nonlinear_arith);
    lemma_whole_product(rate, n);
    lemma_whole_sum(0, rate * n);
    assert(time_sum(whole(rate), parts, 0, 0) == whole(0));
    assert(time_sum(whole(rate), parts, 0, 1) == whole(rate * n));
    lemma_count_of_whole(rate * n);
    assert(total(0, steps, whole(rate), 0) == 0);
    assert(total(0, steps, whole(rate), 1) == n * rate);
}

/// A number of digits and an `s` comes to that number of samples, at any rate.
pub proof fn law_number_with_s_counts_samples(d: Seq<u8>, def: u8, rate: Double)
    requires
        all_digits(d),
        spelled(d) < 0x8_0000_0000_0000,
    ensures
        terms_at(d.push(115), 0, false, def) matches Ok(steps) && total(
            0,
            steps,
            rate,
            steps.len(),
        ) == spelled(d),
{
    reveal(term_count);
    let n = spelled(d);
    law_number_with_s_is_samples(d, false, def);
    let steps = terms_at(d.push(115), 0, false, def)->Ok_0;
    assert(steps[0].term == TermView::Samples(whole(n)));
    lemma_whole(n);
    lemma_half();
    lemma_whole_and_half(n);
    lemma_pow2_pos(1074);
    let unit = pow2(1074) as int;
    assert((2 * n + 1) * unit == 2 * (n * unit) + unit) by (nonlinear_arith);
    lemma_sum_at_most(whole(n), half(), and_half(n));
    lemma_sum_at_least(whole(n), half(), and_half(n));
    assert((n + 1) * unit == n * unit + unit) by (nonlinear_arith);
    lemma_whole_part_between(sum(whole(n), half()), n, n as nat);
    assert(total(0, steps, rate, 0) == 0);
    assert(total(0, steps, rate, 1) == n);
}

/// Hours, minutes and seconds come to as many samples.
pub proof fn law_clock_time_counts_seconds(
    h: Seq<u8>,
    m: Seq<u8>,
    s: Seq<u8>,
    def: u8,
    rate: int,
)
    requires
        all_digits(h),
        all_digits(m),
        all_digits(s),
        1 <= rate <= 0x20_0000_0000_0000,
        ((spelled(h) * 60 + spelled(m)) * 60 + spelled(s)) * rate <= 0x20_0000_0000_0000,
    ensures
        terms_at(h + seq![58u8] + m + seq![58u8] + s, 0, false, def) matches Ok(steps) && total(
            0,
            steps,
            whole(rate),
            steps.len(),
        ) == ((spelled(h) * 60 + spelled(m)) * 60 + spelled(s)) * rate,
{
    let (x, y, z) = (spelled(h), spelled(m), spelled(s));
    let b = h + seq![58u8] + m + seq![58u8] + s;
    law_clock_time(h, m, s, false, def);
    let steps = terms_at(b, 0, false, def)->Ok_0;
    let parts = seq![clamped(x), clamped(y), clamped(z)];
    let term = TermView::Time { whole: parts, colons: 2, fraction: None };
    assert(steps[0].term == term);
    lemma_clock_counts(x, y, z, rate);
    assert(total(0, steps, whole(rate), 0) == 0);
    assert(total(0, steps, whole(rate), 1) == term_count(term, whole(rate)));
}

/// What hours, minutes and seconds come to.
proof fn lemma_clock_counts(x: int, y: int, z: int, rate: int)
    requires
        0 <= x,
        0 <= y,
        0 <= z,
        1 <= rate <= 0x20_0000_0000_0000,
        ((x * 60 + y) * 60 + z) * rate <= 0x20_0000_0000_0000,
    ensures
        term_count(
            TermView::Time {
                whole: seq![clamped(x), clamped(y), clamped(z)],
                colons: 2,
                fraction: None,
            },
            whole(rate),
        ) == ((x * 60 + y) * 60 + z) * rate,
{
    reveal(term_count);
    let parts = seq![clamped(x), clamped(y), clamped(z)];
    let (a, c, e) = (rate * x, rate * y, rate * z);
    let all = (a * 60 + c) * 60 + e;
    assert(((x * 60 + y) * 60 + z) * rate == all) by (nonlinear_arith)
        requires
            all == (a * 60 + c) * 60 + e,
            a == rate * x,
            c == rate * y,
            e == rate * z,
    ;
    assert(a >= x && c >= y && e >= z) by (nonlinear_arith)
        requires
            a == rate * x,
            c == rate * y,
            e == rate * z,
            rate >= 1,
            x >= 0,
            y >= 0,
            z >= 0,
    ;
    assert(parts[0] == x && parts[1] == y && parts[2] == z);
    assert(time_sum(whole(rate), parts, 2, 3) == whole(all)) by {
        lemma_time_step(rate, parts, 2, 0, 0, x);
        lemma_time_step(rate, parts, 2, 1, a * 60, y);
        lemma_time_step(rate, parts, 2, 2, (a * 60 + c) * 60, z);
    }
    lemma_count_of_whole(all);
}

/// A part is added, and a colon behind it makes sixty times as much.
proof fn lemma_time_step(rate: int, parts: Seq<i64>, colons: nat, n: nat, before: int, x: int)
    requires
        n < parts.len(),
        parts[n as int] == x,
        0 <= rate <= 0x20_0000_0000_0000,
        0 <= x <= 0x20_0000_0000_0000,
        0 <= before,
        before + rate * x <= 0x20_0000_0000_0000,
        n < colons ==> (before + rate * x) * 60 <= 0x20_0000_0000_0000,
        time_sum(whole(rate), parts, colons, n) == whole(before),
    ensures
        time_sum(whole(rate), parts, colons, n + 1) == whole(
            if n < colons {
                (before + rate * x) * 60
            } else {
                before + rate * x
            },
        ),
{
    assert(rate * x >= 0) by (nonlinear_arith)
        requires
            rate >= 0,
            x >= 0,
    ;
    lemma_whole_product(rate, x);
    lemma_whole_sum(before, rate * x);
    if n < colons {
        lemma_whole_product(before + rate * x, 60);
    }
}

} // verus!
