//! Durations and positions in words: `48` (seconds), `1:00`, `1:02:03`, `0.5`,
//! `44100s` (a number of samples), sums and differences of such terms, and
//! positions counted from the start (`=`), from the last position (`+`) or from
//! the end (`-`).
//!
//! A term comes out as the whole numbers and the decimals it is written with. What it
//! comes to in samples depends on the sample rate.
use crate::arith::{product, quotient, saturated, sum, whole, whole_part};
use crate::decimal::{
    decimal_double, lemma_far_exponents, lemma_ten_adds, nearest_decimal, ten_to, Large,
};
use crate::double::Double;
use vstd::prelude::*;
use vstd::string::*;

verus! {

/// One term, as written.
#[derive(Debug)]
pub enum Term {
    /// Hours, minutes and seconds, or fewer of them.
    Time {
        /// The numbers between the colons.
        whole: Vec<i64>,
        /// The colons read; each makes what stands before it sixty times as much.
        colons: u32,
        /// The decimal fraction of the last number.
        fraction: Option<Double>,
    },
    /// A number of samples, as a decimal number.
    Samples(Double),
}

/// The model of a term.
#[verifier::ext_equal]
pub enum TermView {
    Time { whole: Seq<i64>, colons: nat, fraction: Option<Double> },
    Samples(Double),
}

impl View for Term {
    type V = TermView;

    open spec fn view(&self) -> TermView {
        match self {
            Term::Time { whole, colons, fraction } => TermView::Time {
                whole: whole@,
                colons: *colons as nat,
                fraction: *fraction,
            },
            Term::Samples(n) => TermView::Samples(*n),
        }
    }
}

/// A term and whether it is taken away.
#[derive(Debug)]
pub struct Step {
    pub minus: bool,
    pub term: Term,
}

/// The model of a step.
#[verifier::ext_equal]
pub struct StepView {
    pub minus: bool,
    pub term: TermView,
}

impl View for Step {
    type V = StepView;

    open spec fn view(&self) -> StepView {
        StepView { minus: self.minus, term: self.term@ }
    }
}

/// The models of a list of steps.
pub open spec fn step_views(steps: Seq<Step>) -> Seq<StepView> {
    steps.map_values(|s: Step| s@)
}

/// What is wrong with a string.
#[derive(Clone, Copy, Debug, PartialEq, Eq, Structural)]
pub enum TimeError {
    BadAnchor,
    EmptyNumber,
    Exponent,
    NoFirstPart,
    EmptyFraction,
    NoCount,
    Trailing,
}

/// The error in words.
pub open spec fn error_text(e: TimeError) -> Seq<char> {
    match e {
        TimeError::BadAnchor => "invalid default anchor"@,
        TimeError::EmptyNumber => "empty number"@,
        TimeError::Exponent => "exponent not allowed in a time value"@,
        TimeError::NoFirstPart => "missing first time component"@,
        TimeError::EmptyFraction => "empty fractional part"@,
        TimeError::NoCount => "missing sample count"@,
        TimeError::Trailing => "trailing characters in number"@,
    }
}

impl TimeError {
    /// The error in words.
    pub fn message(self) -> (text: String)
        ensures
            text@ == error_text(self),
    {
        match self {
            TimeError::BadAnchor => "invalid default anchor".to_string(),
            TimeError::EmptyNumber => "empty number".to_string(),
            TimeError::Exponent => "exponent not allowed in a time value".to_string(),
            TimeError::NoFirstPart => "missing first time component".to_string(),
            TimeError::EmptyFraction => "empty fractional part".to_string(),
            TimeError::NoCount => "missing sample count".to_string(),
            TimeError::Trailing => "trailing characters in number".to_string(),
        }
    }
}

pub open spec fn is_digit(c: u8) -> bool {
    48 <= c <= 57
}

/// The characters that numbers are written with: digits and `:.ets`.
pub open spec fn is_number_char(c: u8) -> bool {
    is_digit(c) || c == 58 || c == 46 || c == 101 || c == 116 || c == 115
}

/// The first place from `pos` on that holds no space.
pub open spec fn past_spaces(b: Seq<u8>, pos: int) -> int
    decreases b.len() - pos,
{
    if 0 <= pos < b.len() && b[pos] == 32 {
        past_spaces(b, pos + 1)
    } else {
        pos
    }
}

/// The first place from `pos` on that holds no digit.
pub open spec fn past_digits(b: Seq<u8>, pos: int) -> int
    decreases b.len() - pos,
{
    if 0 <= pos < b.len() && is_digit(b[pos]) {
        past_digits(b, pos + 1)
    } else {
        pos
    }
}

/// The first place from `pos` on that holds no character of a number.
pub open spec fn past_number(b: Seq<u8>, pos: int) -> int
    decreases b.len() - pos,
{
    if 0 <= pos < b.len() && is_number_char(b[pos]) {
        past_number(b, pos + 1)
    } else {
        pos
    }
}

/// Whether place `pos` holds `c`.
pub open spec fn holds(b: Seq<u8>, pos: int, c: u8) -> bool {
    0 <= pos < b.len() && b[pos] == c
}

/// The place behind a sign, if there is one.
pub open spec fn past_sign(b: Seq<u8>, pos: int) -> int {
    if holds(b, pos, 43) || holds(b, pos, 45) {
        pos + 1
    } else {
        pos
    }
}

/// The number that the digits from `from` to `to` spell.
pub open spec fn number(b: Seq<u8>, from: int, to: int) -> nat
    decreases to - from,
{
    if to <= from {
        0
    } else {
        number(b, from, to - 1) * 10 + (b[to - 1] - 48) as nat
    }
}

/// The nearest 64-bit number.
pub open spec fn clamped(n: int) -> i64 {
    if n > i64::MAX {
        i64::MAX
    } else if n < i64::MIN {
        i64::MIN
    } else {
        n as i64
    }
}

/// A whole number at `pos`, after spaces, with an optional sign, and the place
/// behind it; without digits, 0 and `pos` itself. A number out of range is the
/// nearest one in range.
pub open spec fn whole_at(b: Seq<u8>, pos: int) -> (i64, int) {
    let at = past_spaces(b, pos);
    let first = past_sign(b, at);
    let end = past_digits(b, first);
    if end == first {
        (0, pos)
    } else {
        let n = number(b, first, end) as int;
        (clamped(if holds(b, at, 45) {
            -n
        } else {
            n
        }), end)
    }
}

/// The end of the exponent at `pos`: `pos` itself unless there is an `e` with
/// digits behind it.
pub open spec fn past_exponent(b: Seq<u8>, pos: int) -> int {
    if holds(b, pos, 101) || holds(b, pos, 69) {
        let first = past_sign(b, pos + 1);
        let end = past_digits(b, first);
        if end > first {
            end
        } else {
            pos
        }
    } else {
        pos
    }
}

/// The place behind the digits, the point and the digits at `pos`.
pub open spec fn past_fixed(b: Seq<u8>, pos: int) -> int {
    let whole = past_digits(b, pos);
    if holds(b, whole, 46) {
        past_digits(b, whole + 1)
    } else {
        whole
    }
}

/// Whether there is a digit before or behind the point of the number at `pos`.
pub open spec fn has_digit(b: Seq<u8>, pos: int) -> bool {
    let whole = past_digits(b, pos);
    whole > pos || (holds(b, whole, 46) && past_digits(b, whole + 1) > whole + 1)
}

/// The digits of the number at `pos`, with its point left out, as a whole number.
pub open spec fn digits_at(b: Seq<u8>, pos: int) -> nat {
    let whole = past_digits(b, pos);
    if holds(b, whole, 46) {
        let end = past_digits(b, whole + 1);
        number(b, pos, whole) * ten_to((end - whole - 1) as nat) + number(b, whole + 1, end)
    } else {
        number(b, pos, whole)
    }
}

/// How many digits stand behind the point of the number at `pos`.
pub open spec fn places_at(b: Seq<u8>, pos: int) -> int {
    let whole = past_digits(b, pos);
    if holds(b, whole, 46) {
        past_digits(b, whole + 1) - whole - 1
    } else {
        0
    }
}

/// The exponent at `pos`; 0 if there is none.
pub open spec fn exponent_at(b: Seq<u8>, pos: int) -> int {
    if past_exponent(b, pos) > pos {
        let first = past_sign(b, pos + 1);
        let n = number(b, first, past_digits(b, first)) as int;
        if holds(b, pos + 1, 45) {
            -n
        } else {
            n
        }
    } else {
        0
    }
}

/// The double nearest to the decimal number at `pos`, after spaces, and the place behind
/// it; `None` without digits.
pub open spec fn decimal_at(b: Seq<u8>, pos: int) -> Option<(Double, int)> {
    let at = past_spaces(b, pos);
    let first = past_sign(b, at);
    if has_digit(b, first) {
        let fixed = past_fixed(b, first);
        Some(
            (
                decimal_double(
                    holds(b, at, 45),
                    digits_at(b, first),
                    exponent_at(b, fixed) - places_at(b, first),
                ),
                past_exponent(b, fixed),
            ),
        )
    } else {
        None
    }
}

/// The parts of a time from `pos` on, of which `i` have been read, with the colons
/// behind them and the place behind all of it.
pub open spec fn parts_at(b: Seq<u8>, pos: int, i: int) -> Result<
    (Seq<i64>, nat, int),
    TimeError,
>
    decreases 3 - i,
{
    if pos < b.len() && b[pos] != 46 && i < 3 {
        let (n, next) = whole_at(b, pos);
        if i == 0 && next == pos {
            Err(TimeError::NoFirstPart)
        } else if i < 2 && holds(b, next, 58) {
            match parts_at(b, next + 1, i + 1) {
                Ok((rest, colons, end)) => Ok((seq![n] + rest, colons + 1, end)),
                Err(e) => Err(e),
            }
        } else {
            Ok((seq![n], 0, next))
        }
    } else {
        Ok((Seq::empty(), 0, pos))
    }
}

/// The place behind `c`, if it stands at `pos`.
pub open spec fn past(b: Seq<u8>, pos: int, c: u8) -> int {
    if holds(b, pos, c) {
        pos + 1
    } else {
        pos
    }
}

/// A time at `pos` and the place behind it.
pub open spec fn time_at(b: Seq<u8>, pos: int) -> Result<(TermView, int), TimeError> {
    match parts_at(b, pos, 0) {
        Err(e) => Err(e),
        Ok((whole, colons, end)) => if holds(b, end, 46) {
            match decimal_at(b, end) {
                None => Err(TimeError::EmptyFraction),
                Some((part, next)) => Ok(
                    (
                        TermView::Time { whole, colons, fraction: Some(part) },
                        past(b, next, 116),
                    ),
                ),
            }
        } else {
            Ok((TermView::Time { whole, colons, fraction: None }, past(b, end, 116)))
        },
    }
}

/// A number of samples at `pos` and the place behind it.
pub open spec fn count_at(b: Seq<u8>, pos: int) -> Result<(TermView, int), TimeError> {
    match decimal_at(b, pos) {
        None => Err(TimeError::NoCount),
        Some((n, next)) => Ok((TermView::Samples(n), past(b, next, 115))),
    }
}

/// Whether the number `token` says that it is a time: a colon, a point without an
/// exponent, or a final `t`.
pub open spec fn says_time(token: Seq<u8>) -> bool {
    ||| token.contains(58)
    ||| token.contains(46) && !token.contains(101)
    ||| token.last() == 116
}

/// Whether the number `token` is a time. One that does not say is a time when
/// `def` is `t`.
pub open spec fn is_time(token: Seq<u8>, def: u8) -> bool {
    says_time(token) || (def == 116 && token.last() != 115)
}

/// A term at `pos`, after spaces, and the place behind it.
pub open spec fn term_at(b: Seq<u8>, pos: int, def: u8) -> Result<(TermView, int), TimeError> {
    let at = past_spaces(b, pos);
    let end = past_number(b, at);
    let token = b.subrange(at, end);
    if end == at {
        Err(TimeError::EmptyNumber)
    } else if is_time(token, def) && token.contains(101) {
        Err(TimeError::Exponent)
    } else {
        let read = if is_time(token, def) {
            time_at(b, at)
        } else {
            count_at(b, at)
        };
        match read {
            Err(e) => Err(e),
            Ok((term, next)) => if next != end {
                Err(TimeError::Trailing)
            } else {
                Ok((term, next))
            },
        }
    }
}

/// The terms from `pos` on, the first of them taken away if `minus`; each `+` or
/// `-` behind a term announces another one.
pub open spec fn terms_at(b: Seq<u8>, pos: int, minus: bool, def: u8) -> Result<
    Seq<StepView>,
    TimeError,
>
    decreases b.len() - pos,
{
    match term_at(b, pos, def) {
        Err(e) => Err(e),
        Ok((term, next)) => {
            let step = StepView { minus, term };
            if pos < next && (holds(b, next, 43) || holds(b, next, 45)) {
                match terms_at(b, next + 1, b[next] == 45, def) {
                    Err(e) => Err(e),
                    Ok(rest) => Ok(seq![step] + rest),
                }
            } else {
                Ok(seq![step])
            }
        },
    }
}

/// The place behind the last of the terms from `pos` on.
pub open spec fn terms_end(b: Seq<u8>, pos: int, def: u8) -> int
    decreases b.len() - pos,
{
    match term_at(b, pos, def) {
        Err(_) => pos,
        Ok((_, next)) => if pos < next && (holds(b, next, 43) || holds(b, next, 45)) {
            terms_end(b, next + 1, def)
        } else {
            next
        },
    }
}

/// The samples in the first `n` parts of a time, each colon behind one of them
/// making sixty times as much of it.
pub open spec fn time_sum(rate: Double, parts: Seq<i64>, colons: nat, n: nat) -> Double
    decreases n,
{
    if n == 0 {
        whole(0)
    } else {
        let acc = sum(
            time_sum(rate, parts, colons, (n - 1) as nat),
            product(rate, whole(parts[n - 1] as int)),
        );
        if n <= colons {
            product(acc, whole(60))
        } else {
            acc
        }
    }
}

/// One half.
pub open spec fn half() -> Double {
    quotient(whole(1), whole(2))
}

/// A number of samples, as far as it fits.
pub open spec fn as_count(a: Double) -> u64 {
    saturated(whole_part(a), 0, u64::MAX as int) as u64
}

/// What a term comes to in samples. Only a fraction or a number of samples is rounded;
/// whole parts are cut off.
#[verifier::opaque]
pub open spec fn term_count(term: TermView, rate: Double) -> u64 {
    match term {
        TermView::Time { whole: parts, colons, fraction } => {
            let n = as_count(time_sum(rate, parts, colons, parts.len()));
            match fraction {
                Some(part) => as_count(sum(sum(whole(n as int), product(rate, part)), half())),
                None => n,
            }
        },
        TermView::Samples(n) => as_count(sum(n, half())),
    }
}

impl Term {
    /// What the term comes to in samples.
    pub fn count(&self, rate: Double) -> (n: u64)
        ensures
            n == term_count(self@, rate),
    {
        reveal(term_count);
        let one_half = Double::from_i64(1).over(Double::from_i64(2));
        match self {
            Term::Time { whole: parts, colons, fraction } => {
                let mut acc = Double::from_i64(0);
                let mut i: usize = 0;
                while i < parts.len()
                    invariant
                        i <= parts@.len(),
                        acc == time_sum(rate, parts@, *colons as nat, i as nat),
                    decreases parts@.len() - i,
                {
                    acc = acc.plus(rate.times(Double::from_i64(parts[i])));
                    if (i as u64) < *colons as u64 {
                        acc = acc.times(Double::from_i64(60));
                    }
                    i = i + 1;
                }
                let n: u64 = acc.to_u64();
                match fraction {
                    Some(part) => Double::from_u64(n).plus(rate.times(*part)).plus(
                        one_half,
                    ).to_u64(),
                    None => n,
                }
            },
            Term::Samples(n) => n.plus(one_half).to_u64(),
        }
    }
}

/// The first `n` terms added to `base` and taken away from it in turn: sums wrap
/// around, and nothing is less than zero.
pub open spec fn total(base: u64, steps: Seq<StepView>, rate: Double, n: nat) -> u64
    decreases n,
{
    if n == 0 {
        base
    } else {
        let before = total(base, steps, rate, (n - 1) as nat);
        let part = term_count(steps[n - 1].term, rate);
        if steps[n - 1].minus {
            if part <= before {
                (before - part) as u64
            } else {
                0
            }
        } else {
            ((before + part) % 0x1_0000_0000_0000_0000) as u64
        }
    }
}

/// The terms added to `base` and taken away from it in turn.
fn add_up(base: u64, steps: &Vec<Step>, rate: Double) -> (samples: u64)
    ensures
        samples == total(base, step_views(steps@), rate, steps@.len()),
{
    let mut samples: u64 = base;
    let mut i: usize = 0;
    while i < steps.len()
        invariant
            i <= steps@.len(),
            samples == total(base, step_views(steps@), rate, i as nat),
        decreases steps@.len() - i,
    {
        let part: u64 = steps[i].term.count(rate);
        assert(step_views(steps@)[i as int] == steps@[i as int]@);
        if steps[i].minus {
            samples = if part <= samples {
                samples - part
            } else {
                0
            };
        } else {
            samples = samples.wrapping_add(part);
        }
        i = i + 1;
    }
    samples
}

fn skip_spaces(b: &[u8], pos: usize) -> (end: usize)
    requires
        pos <= b@.len(),
    ensures
        end == past_spaces(b@, pos as int),
        pos <= end <= b@.len(),
{
    let mut p: usize = pos;
    while p < b.len() && b[p] == 32
        invariant
            pos <= p <= b@.len(),
            past_spaces(b@, p as int) == past_spaces(b@, pos as int),
        decreases b@.len() - p,
    {
        p = p + 1;
    }
    p
}

pub(crate) fn skip_digits(b: &[u8], pos: usize) -> (end: usize)
    requires
        pos <= b@.len(),
    ensures
        end == past_digits(b@, pos as int),
        pos <= end <= b@.len(),
        forall|i: int| pos <= i < end ==> is_digit(#[trigger] b@[i]),
{
    let mut p: usize = pos;
    while p < b.len() && 48 <= b[p] && b[p] <= 57
        invariant
            pos <= p <= b@.len(),
            past_digits(b@, p as int) == past_digits(b@, pos as int),
            forall|i: int| pos <= i < p ==> is_digit(#[trigger] b@[i]),
        decreases b@.len() - p,
    {
        p = p + 1;
    }
    p
}

fn skip_number(b: &[u8], pos: usize) -> (end: usize)
    requires
        pos <= b@.len(),
    ensures
        end == past_number(b@, pos as int),
        pos <= end <= b@.len(),
{
    let mut p: usize = pos;
    while p < b.len() && ((48 <= b[p] && b[p] <= 58) || b[p] == 46 || b[p] == 101 || b[p] == 116
        || b[p] == 115)
        invariant
            pos <= p <= b@.len(),
            past_number(b@, p as int) == past_number(b@, pos as int),
        decreases b@.len() - p,
    {
        p = p + 1;
    }
    p
}

fn at(b: &[u8], pos: usize, c: u8) -> (yes: bool)
    ensures
        yes == holds(b@, pos as int, c),
{
    pos < b.len() && b[pos] == c
}

fn skip_sign(b: &[u8], pos: usize) -> (end: usize)
    requires
        pos <= b@.len(),
    ensures
        end == past_sign(b@, pos as int),
        pos <= end <= b@.len(),
{
    let len = b.len();
    if pos < len && (b[pos] == 43 || b[pos] == 45) {
        pos + 1
    } else {
        pos
    }
}

/// Reads a whole number: spaces, an optional sign, digits. Returns it and the
/// place behind it, or 0 and `pos` when there is no digit. What does not fit is
/// brought to the nearest number that does.
pub fn c_strtol(b: &[u8], pos: usize) -> (r: (i64, usize))
    requires
        pos <= b@.len(),
    ensures
        (r.0, r.1 as int) == whole_at(b@, pos as int),
        r.1 <= b@.len(),
{
    let sign_at = skip_spaces(b, pos);
    let first = skip_sign(b, sign_at);
    let end = skip_digits(b, first);
    if end == first {
        return (0, pos);
    }
    let negative = at(b, sign_at, 45);
    // beyond 2^63 the number is out of range for either sign
    let cap: u64 = 0x8000_0000_0000_0000;
    let mut n: u64 = 0;
    let mut p: usize = first;
    while p < end
        invariant
            first <= p <= end <= b@.len(),
            forall|i: int| first <= i < end ==> is_digit(#[trigger] b@[i]),
            cap == 0x8000_0000_0000_0000,
            n <= cap,
            n < cap ==> n == number(b@, first as int, p as int),
            n == cap ==> number(b@, first as int, p as int) >= cap,
        decreases end - p,
    {
        assert(is_digit(b@[p as int]));
        let d: u64 = (b[p] - 48) as u64;
        n = if n > (cap - d) / 10 {
            cap
        } else {
            n * 10 + d
        };
        p = p + 1;
    }
    let value: i64 = if negative {
        if n == cap {
            i64::MIN
        } else {
            -(n as i64)
        }
    } else if n >= cap {
        i64::MAX
    } else {
        n as i64
    };
    (value, end)
}

/// Digits spell less than ten to the power of their number.
proof fn lemma_number_below(b: Seq<u8>, from: int, to: int)
    requires
        from <= to,
        forall|i: int| from <= i < to ==> is_digit(#[trigger] b[i]),
    ensures
        number(b, from, to) < ten_to((to - from) as nat),
    decreases to - from,
{
    if from < to {
        lemma_number_below(b, from, to - 1);
        assert(is_digit(b[to - 1]));
    }
}

/// The digits from `from` to `to` behind the number `n` holds.
fn append_digits(n: &mut Large, b: &[u8], from: usize, to: usize)
    requires
        from <= to <= b@.len(),
        forall|i: int| from <= i < to ==> is_digit(#[trigger] b@[i]),
    ensures
        final(n)@ == old(n)@ * ten_to((to - from) as nat) + number(b@, from as int, to as int),
{
    let ghost start = n@;
    let mut p: usize = from;
    assert(start * ten_to(0) == start) by (nonlinear_arith)
        requires
            ten_to(0) == 1,
    ;
    while p < to
        invariant
            from <= p <= to <= b@.len(),
            forall|i: int| from <= i < to ==> is_digit(#[trigger] b@[i]),
            n@ == start * ten_to((p - from) as nat) + number(b@, from as int, p as int),
        decreases to - p,
    {
        assert(is_digit(b@[p as int]));
        n.scale(10, (b[p] - 48) as u64);
        proof {
            let t = ten_to((p - from) as nat);
            let m = number(b@, from as int, p as int);
            assert((start * t + m) * 10 == start * (10 * t) + m * 10) by (nonlinear_arith);
        }
        p = p + 1;
    }
}

/// The number that digits spell, or `cap` where it is not below that.
fn capped_number(b: &[u8], from: usize, to: usize) -> (n: u128)
    requires
        from <= to <= b@.len(),
        forall|i: int| from <= i < to ==> is_digit(#[trigger] b@[i]),
    ensures
        n <= FAR,
        n < FAR ==> n == number(b@, from as int, to as int),
        n == FAR ==> number(b@, from as int, to as int) >= FAR,
{
    let mut n: u128 = 0;
    let mut p: usize = from;
    while p < to
        invariant
            from <= p <= to <= b@.len(),
            forall|i: int| from <= i < to ==> is_digit(#[trigger] b@[i]),
            n <= FAR,
            n < FAR ==> n == number(b@, from as int, p as int),
            n == FAR ==> number(b@, from as int, p as int) >= FAR,
        decreases to - p,
    {
        assert(is_digit(b@[p as int]));
        let next: u128 = n * 10 + (b[p] - 48) as u128;
        n = if n == FAR || next >= FAR {
            FAR
        } else {
            next
        };
        p = p + 1;
    }
    n
}

/// An exponent that no number of digits makes up for.
const FAR: u128 = 0x1_0000_0000_0000_0000_0000_0000;

/// The exponent at `pos`, as far as it makes a difference, and the place behind it.
fn read_exponent(b: &[u8], pos: usize) -> (r: (i128, usize))
    requires
        pos <= b@.len(),
    ensures
        r.1 == past_exponent(b@, pos as int),
        pos <= r.1 <= b@.len(),
        -FAR <= r.0 <= FAR,
        -FAR < r.0 < FAR ==> r.0 == exponent_at(b@, pos as int),
        r.0 == FAR ==> exponent_at(b@, pos as int) >= FAR,
        r.0 == -FAR ==> exponent_at(b@, pos as int) <= -FAR,
{
    let len = b.len();
    if pos < len && (b[pos] == 101 || b[pos] == 69) {
        let first = skip_sign(b, pos + 1);
        let last = skip_digits(b, first);
        if last > first {
            let n: i128 = capped_number(b, first, last) as i128;
            let minus = at(b, pos + 1, 45);
            return (
                if minus {
                    -n
                } else {
                    n
                },
                last,
            );
        }
    }
    (0, pos)
}

/// Reads a decimal number: spaces, an optional sign, digits with an optional point, an
/// optional exponent. Returns the nearest double and the place behind it; `None` when
/// there is no digit.
pub fn c_strtod(b: &[u8], pos: usize) -> (r: Option<(Double, usize)>)
    requires
        pos <= b@.len(),
    ensures
        match r {
            Some((value, next)) => decimal_at(b@, pos as int) == Some((value, next as int))
                && next <= b@.len(),
            None => decimal_at(b@, pos as int) is None,
        },
{
    let len = b.len();
    let sign = skip_spaces(b, pos);
    let first = skip_sign(b, sign);
    let whole = skip_digits(b, first);
    let mut digits = Large::zero();
    append_digits(&mut digits, b, first, whole);
    let mut places: usize = 0;
    let mut fixed: usize = whole;
    proof {
        lemma_number_below(b@, first as int, whole as int);
        assert(0 * ten_to((whole - first) as nat) == 0);
    }
    if whole < len && b[whole] == 46 {
        fixed = skip_digits(b, whole + 1);
        places = fixed - (whole + 1);
        proof {
            lemma_number_below(b@, whole + 1, fixed as int);
            lemma_ten_adds((whole - first) as nat, places as nat);
            let n = number(b@, first as int, whole as int);
            let f = number(b@, whole + 1, fixed as int);
            let t = ten_to(places as nat);
            let w = ten_to((whole - first) as nat);
            assert(n * t + f < w * t) by (nonlinear_arith)
                requires
                    n < w,
                    f < t,
            ;
        }
        append_digits(&mut digits, b, whole + 1, fixed);
    }
    let count: usize = whole - first + places;
    if count == 0 {
        return None;
    }
    let (exponent, end) = read_exponent(b, fixed);
    let shift: i128 = exponent - places as i128;
    let value = nearest_decimal(at(b, sign, 45), &digits, count, shift);
    proof {
        assert(digits@ == digits_at(b@, first as int));
        let actual = exponent_at(b@, fixed as int) - places_at(b@, first as int);
        if actual != shift {
            lemma_far_exponents(digits@, count as nat, shift as int, actual);
        }
    }
    Some((value, end))
}

/// Reads the parts of a time.
fn read_parts(b: &[u8], pos: usize, i: u32) -> (r: Result<(Vec<i64>, u32, usize), TimeError>)
    requires
        pos <= b@.len(),
        i <= 3,
    ensures
        match r {
            Ok((whole, colons, end)) => {
                &&& parts_at(b@, pos as int, i as int) == Ok::<(Seq<i64>, nat, int), TimeError>(
                    (whole@, colons as nat, end as int),
                )
                &&& colons <= 3 - i
                &&& end <= b@.len()
            },
            Err(e) => parts_at(b@, pos as int, i as int) == Err::<
                (Seq<i64>, nat, int),
                TimeError,
            >(e),
        },
    decreases 3 - i,
{
    let len = b.len();
    let mut whole: Vec<i64> = Vec::new();
    if !(pos < len && b[pos] != 46 && i < 3) {
        assert(whole@ =~= Seq::empty());
        return Ok((whole, 0, pos));
    }
    let (n, next) = c_strtol(b, pos);
    if i == 0 && next == pos {
        return Err(TimeError::NoFirstPart);
    }
    whole.push(n);
    assert(whole@ =~= seq![n]);
    if i < 2 && next < len && b[next] == 58 {
        match read_parts(b, next + 1, i + 1) {
            Err(e) => Err(e),
            Ok((mut rest, colons, end)) => {
                let ghost more = rest@;
                whole.append(&mut rest);
                assert(whole@ =~= seq![n] + more);
                Ok((whole, colons + 1, end))
            },
        }
    } else {
        Ok((whole, 0, next))
    }
}

/// Reads a time.
fn read_time(b: &[u8], pos: usize) -> (r: Result<(Term, usize), TimeError>)
    requires
        pos <= b@.len(),
    ensures
        match r {
            Ok((term, end)) => time_at(b@, pos as int) == Ok::<(TermView, int), TimeError>(
                (term@, end as int),
            ) && end <= b@.len(),
            Err(e) => time_at(b@, pos as int) == Err::<(TermView, int), TimeError>(e),
        },
{
    let len = b.len();
    match read_parts(b, pos, 0) {
        Err(e) => Err(e),
        Ok((whole, colons, end)) => {
            if end < len && b[end] == 46 {
                match c_strtod(b, end) {
                    None => Err(TimeError::EmptyFraction),
                    Some((part, next)) => {
                        let last = if next < len && b[next] == 116 {
                            next + 1
                        } else {
                            next
                        };
                        Ok((Term::Time { whole, colons, fraction: Some(part) }, last))
                    },
                }
            } else {
                let last = if end < len && b[end] == 116 {
                    end + 1
                } else {
                    end
                };
                Ok((Term::Time { whole, colons, fraction: None }, last))
            }
        },
    }
}

/// Reads a number of samples.
fn read_count(b: &[u8], pos: usize) -> (r: Result<(Term, usize), TimeError>)
    requires
        pos <= b@.len(),
    ensures
        match r {
            Ok((term, end)) => count_at(b@, pos as int) == Ok::<(TermView, int), TimeError>(
                (term@, end as int),
            ) && end <= b@.len(),
            Err(e) => count_at(b@, pos as int) == Err::<(TermView, int), TimeError>(e),
        },
{
    let len = b.len();
    match c_strtod(b, pos) {
        None => Err(TimeError::NoCount),
        Some((n, next)) => {
            let last = if next < len && b[next] == 115 {
                next + 1
            } else {
                next
            };
            Ok((Term::Samples(n), last))
        },
    }
}

/// Whether the bytes from `from` to `to` hold `c`.
fn between(b: &[u8], from: usize, to: usize, c: u8) -> (yes: bool)
    requires
        from <= to <= b@.len(),
    ensures
        yes == b@.subrange(from as int, to as int).contains(c),
{
    let mut p: usize = from;
    while p < to
        invariant
            from <= p <= to <= b@.len(),
            forall|i: int| from <= i < p ==> b@[i] != c,
        decreases to - p,
    {
        if b[p] == c {
            assert(b@.subrange(from as int, to as int)[p - from] == c);
            return true;
        }
        p = p + 1;
    }
    assert forall|i: int| 0 <= i < to - from implies b@.subrange(from as int, to as int)[i] != c by {
        assert(b@[from + i] != c);
    }
    false
}

/// Reads a term.
fn read_term(b: &[u8], pos: usize, def: u8) -> (r: Result<(Term, usize), TimeError>)
    requires
        pos <= b@.len(),
    ensures
        match r {
            Ok((term, end)) => term_at(b@, pos as int, def) == Ok::<(TermView, int), TimeError>(
                (term@, end as int),
            ) && pos < end <= b@.len(),
            Err(e) => term_at(b@, pos as int, def) == Err::<(TermView, int), TimeError>(e),
        },
{
    let start = skip_spaces(b, pos);
    let end = skip_number(b, start);
    if end == start {
        return Err(TimeError::EmptyNumber);
    }
    let found_colon = between(b, start, end, 58);
    let found_dot = between(b, start, end, 46);
    let found_e = between(b, start, end, 101);
    let last: u8 = b[end - 1];
    assert(b@.subrange(start as int, end as int).last() == last);
    let found_time = found_colon || (found_dot && !found_e) || last == 116;
    let time = found_time || (def == 116 && last != 115);
    if time && found_e {
        return Err(TimeError::Exponent);
    }
    let read = if time {
        read_time(b, start)
    } else {
        read_count(b, start)
    };
    match read {
        Err(e) => Err(e),
        Ok((term, next)) => {
            if next != end {
                Err(TimeError::Trailing)
            } else {
                Ok((term, next))
            }
        },
    }
}

/// Reads terms for as long as a sign announces another one, and says where the place
/// behind the last of them is. `def` is `t` when a number that does not say what it is is
/// a time.
pub fn parsesamples_from(b: &[u8], start: usize, minus: bool, def: u8) -> (r: Result<
    (Vec<Step>, usize),
    TimeError,
>)
    requires
        start <= b@.len(),
    ensures
        match r {
            Ok((steps, end)) => {
                &&& terms_at(b@, start as int, minus, def) == Ok::<Seq<StepView>, TimeError>(
                    step_views(steps@),
                )
                &&& end == terms_end(b@, start as int, def)
                &&& start < end <= b@.len()
            },
            Err(e) => terms_at(b@, start as int, minus, def) == Err::<Seq<StepView>, TimeError>(e),
        },
    decreases b@.len() - start,
{
    let len = b.len();
    let mut steps: Vec<Step> = Vec::new();
    match read_term(b, start, def) {
        Err(e) => Err(e),
        Ok((term, next)) => {
            let step = Step { minus, term };
            let ghost one = step@;
            steps.push(step);
            assert(step_views(steps@) =~= seq![one]);
            if next < len && (b[next] == 43 || b[next] == 45) {
                match parsesamples_from(b, next + 1, b[next] == 45, def) {
                    Err(e) => Err(e),
                    Ok((mut rest, end)) => {
                        let ghost more = step_views(rest@);
                        steps.append(&mut rest);
                        assert(step_views(steps@) =~= seq![one] + more);
                        Ok((steps, end))
                    },
                }
            } else {
                Ok((steps, next))
            }
        },
    }
}

/// A duration in samples. `def` is `t` to take a number that does not say what it is for
/// a time.
pub fn parse_samples(rate: Double, s: &str, def: u8) -> (r: Result<u64, String>)
    ensures
        match terms_at(s.spec_bytes(), 0, false, def) {
            Ok(steps) => r matches Ok(n) && n == total(0, steps, rate, steps.len()),
            Err(e) => r matches Err(text) && text@ == error_text(e),
        },
{
    match parsesamples_from(s.as_bytes(), 0, false, def) {
        Ok((steps, _)) => Ok(add_up(0, &steps, rate)),
        Err(e) => Err(e.message()),
    }
}

/// Whether `c` says where a position is counted from.
pub open spec fn is_anchor(c: u8) -> bool {
    c == 43 || c == 45 || c == 61
}

/// The anchor of a position: its first character, if that is one, else `def`.
pub open spec fn anchor_of(b: Seq<u8>, def: u8) -> (u8, int) {
    if b.len() > 0 && is_anchor(b[0]) {
        (b[0], 1)
    } else {
        (def, 0)
    }
}

/// Whether the first term of a position is taken away, and where it starts: a
/// position from the end counts backwards unless a sign behind the anchor says
/// otherwise.
pub open spec fn direction_of(b: Seq<u8>, anchor: u8, pos: int) -> (bool, int) {
    if anchor == 61 {
        (false, pos)
    } else if holds(b, pos, 43) || holds(b, pos, 45) {
        (b[pos] == 45, pos + 1)
    } else {
        (anchor == 45, pos)
    }
}

/// A position in samples. It is counted from the start (`=`), from `latest` (`+`) or from
/// `end` (`-`); `def_anchor` is the anchor of one that has none.
pub fn parse_position(rate: Double, s: &str, latest: u64, end: u64, def_anchor: u8) -> (r: Result<
    u64,
    String,
>)
    ensures
        if !is_anchor(def_anchor) {
            r matches Err(text) && text@ == error_text(TimeError::BadAnchor)
        } else {
            let b = s.spec_bytes();
            let (anchor, behind) = anchor_of(b, def_anchor);
            let (minus, first) = direction_of(b, anchor, behind);
            match terms_at(b, first, minus, 116) {
                Ok(steps) => {
                    let base = if anchor == 61 {
                        0
                    } else if anchor == 43 {
                        latest
                    } else {
                        end
                    };
                    r matches Ok(n) && n == total(base, steps, rate, steps.len())
                },
                Err(e) => r matches Err(text) && text@ == error_text(e),
            }
        },
{
    let b = s.as_bytes();
    let len = b.len();
    if def_anchor != 43 && def_anchor != 45 && def_anchor != 61 {
        return Err(TimeError::BadAnchor.message());
    }
    let mut pos: usize = 0;
    let mut anchor: u8 = def_anchor;
    if len > 0 && (b[0] == 43 || b[0] == 45 || b[0] == 61) {
        anchor = b[0];
        pos = 1;
    }
    let mut minus = false;
    if anchor != 61 {
        minus = anchor == 45;
        if pos < len && (b[pos] == 43 || b[pos] == 45) {
            minus = b[pos] == 45;
            pos = pos + 1;
        }
    }
    let base: u64 = if anchor == 61 {
        0
    } else if anchor == 43 {
        latest
    } else {
        end
    };
    match parsesamples_from(b, pos, minus, 116) {
        Ok((steps, _)) => Ok(add_up(base, &steps, rate)),
        Err(e) => Err(e.message()),
    }
}

} // verus!
