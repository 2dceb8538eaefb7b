//! What whole numbers are written as.
use crate::arith::{quotient, whole, whole_part};
use crate::bounds::{
    lemma_double_of, lemma_nearest_at_least, lemma_nearest_at_most, lemma_scaled_monotone,
    lemma_whole, lemma_whole_difference, lemma_whole_part_between, lemma_whole_product,
    lemma_whole_quotient, plain,
};
use crate::convert::{floored, rounded, rounded_part};
use crate::double::scaled;
use crate::labels::{freq_text, nearly_whole, time_text, two_places};
use crate::text::{digit, digits, signed_digits, two_digits};
use crate::tick_laws::{lemma_millionth, lemma_order};
use crate::track::{headline, rate_text, without_fraction, Track};
use crate::window::{absolute, ratio};
use vstd::arithmetic::div_mod::lemma_fundamental_div_mod_converse;
use vstd::arithmetic::power2::{lemma_pow2_adds, lemma_pow2_pos, pow2};
use vstd::prelude::*;

verus! {

/// A whole number is whole.
proof fn lemma_is_whole(n: int)
    requires
        0 <= n <= 0x20_0000_0000_0000,
    ensures
        plain(whole(n)),
        scaled(whole(n).magnitude()) % pow2(1074) == 0,
        (scaled(whole(n).magnitude()) / pow2(1074)) as int == n,
        whole_part(whole(n)) == n,
        rounded_part(whole(n)) == n,
        rounded(whole(n)) == whole(n),
        nearly_whole(whole(n)),
        without_fraction(whole(n)),
{
    lemma_whole(n);
    lemma_pow2_pos(1074);
    let unit = pow2(1074) as int;
    lemma_fundamental_div_mod_converse(n * unit, unit, n, 0);
    lemma_whole_difference(n, n);
    lemma_millionth();
    lemma_whole(0);
    assert(0 * unit == 0);
    assert(scaled(0) == 0);
    if whole(0).magnitude() > 0 {
        crate::double::lemma_scaled_increases(0, whole(0).magnitude());
    }
    assert(absolute(whole(0)) == whole(0));
    crate::double::law_order_is_value_order(whole(0), ratio(1, 1_000_000));
}

/// Whole seconds below a minute are written as they are, and from a minute on as minutes and
/// the seconds that are left of them, with two places.
pub proof fn law_whole_seconds_are_written_out(m: int, s: int)
    requires
        0 <= m <= 0x7FFF_FFFF,
        0 <= s < 60,
    ensures
        m == 0 ==> time_text(whole(s)) == signed_digits(s) + "s"@,
        m >= 1 ==> time_text(whole(60 * m + s)) == signed_digits(m) + ":"@ + two_places(s),
{
    let n = 60 * m + s;
    lemma_is_whole(s);
    lemma_is_whole(n);
    lemma_order(s, 60);
    lemma_order(n, 60);
    if m >= 1 {
        lemma_minutes(m, s);
        lemma_whole_product(m, 60);
        lemma_whole_difference(n, m * 60);
    }
}

/// The whole minutes of a number of seconds.
proof fn lemma_minutes(m: int, s: int)
    requires
        0 <= m <= 0x7FFF_FFFF,
        0 <= s < 60,
    ensures
        whole_part(floored(quotient(whole(60 * m + s), whole(60)))) == m,
{
    let n = 60 * m + s;
    let q = quotient(whole(n), whole(60));
    let unit = pow2(1074) as int;
    let g = pow2(1068) as int;
    lemma_pow2_pos(1074);
    lemma_pow2_pos(1068);
    lemma_pow2_adds(6, 1068);
    vstd::arithmetic::power2::lemma2_to64();
    assert(unit == 64 * g);
    lemma_whole(n);
    lemma_whole(60);
    lemma_whole(m);
    let num = scaled(whole(n).magnitude()) * pow2(1074);
    let den = scaled(whole(60).magnitude());
    let high = lemma_double_of((64 * m + 63) as nat, 1068);
    assert(den == 60 * unit);
    assert(num <= scaled(high) * den) by (nonlinear_arith)
        requires
            num == (n * unit) * unit,
            scaled(high) == (64 * m + 63) * g,
            den == 60 * unit,
            unit == 64 * g,
            n <= 60 * m + 59,
            g > 0,
            m >= 0,
    {
        assert((n * unit) * unit == (64 * n) * (g * unit)) by (nonlinear_arith)
            requires
                unit == 64 * g,
        ;
        assert((64 * m + 63) * g * (60 * unit) == (60 * (64 * m + 63)) * (g * unit))
            by (nonlinear_arith);
        assert(64 * n <= 60 * (64 * m + 63));
        assert(g * unit > 0) by (nonlinear_arith)
            requires
                unit == 64 * g,
                g > 0,
        ;
        let (a, b, c) = (64 * n, 60 * (64 * m + 63), g * unit);
        assert(a * c <= b * c) by (nonlinear_arith)
            requires
                a <= b,
                c > 0,
        ;
    }
    assert(scaled(whole(m).magnitude()) * den <= num) by (nonlinear_arith)
        requires
            num == (n * unit) * unit,
            scaled(whole(m).magnitude()) == m * unit,
            den == 60 * unit,
            n >= 60 * m,
            unit > 0,
    ;
    assert(whole(60).magnitude() > 0) by {
        assert(scaled(0) == 0);
    }
    lemma_nearest_at_most(num, den, high);
    lemma_nearest_at_least(num, den, whole(m).magnitude());
    lemma_scaled_monotone(q.magnitude(), high);
    lemma_scaled_monotone(whole(m).magnitude(), q.magnitude());
    assert((64 * m + 63) * g < (m + 1) * unit) by (nonlinear_arith)
        requires
            unit == 64 * g,
            g > 0,
    ;
    lemma_whole_part_between(q, m, m as nat);
    lemma_is_whole(m);
}

/// Whole hertz below a thousand are written as they are, and whole thousands with a `k`.
pub proof fn law_whole_hertz_are_written_out(f: int, k: int)
    requires
        0 <= f < 1000,
        1 <= k <= 0x1_0000_0000,
    ensures
        freq_text(whole(f)) == signed_digits(f),
        freq_text(whole(1000 * k)) == signed_digits(k) + "k"@,
        rate_text(whole(1000 * k)) == signed_digits(k) + " kHz"@,
{
    lemma_is_whole(f);
    lemma_is_whole(k);
    lemma_order(1000, f);
    lemma_order(1000, 1000 * k);
    lemma_whole_quotient(k, 1000);
}

/// The number that a text of digits stands for.
pub open spec fn stood_for(text: Seq<char>) -> int
    decreases text.len(),
{
    if text.len() == 0 {
        0
    } else {
        10 * stood_for(text.drop_last()) + (text.last() as int - '0' as int)
    }
}

/// The digits of a number stand for it, are nothing but digits, and do not begin with a zero
/// unless there is only that. A number below a hundred fills two places.
pub proof fn law_digits_stand_for_their_number(n: nat, i: int)
    requires
        0 <= i < digits(n).len(),
    ensures
        stood_for(digits(n)) == n,
        '0' as int <= digits(n)[i] as int <= '9' as int,
        n > 0 ==> digits(n)[0] != '0',
        n < 10 ==> digits(n).len() == 1,
        n < 100 ==> two_digits(n).len() == 2 && stood_for(two_digits(n)) == n,
    decreases n,
{
    reveal_with_fuel(stood_for, 3);
    reveal_with_fuel(digits, 3);
    if n < 10 {
        assert(digits(n).drop_last() =~= Seq::empty());
        assert(two_digits(n).drop_last() =~= seq!['0']);
        assert(seq!['0'].drop_last() =~= Seq::<char>::empty());
    } else {
        let head = digits(n / 10);
        assert(digits(n) == head.push(digit(n % 10)));
        assert(digits(n).drop_last() =~= head);
        assert(head.len() >= 1);
        if i < head.len() {
            law_digits_stand_for_their_number(n / 10, i);
        }
        law_digits_stand_for_their_number(n / 10, 0);
    }
}

/// Artist and title make the headline of a track, an artist alone goes with the name of the
/// file, a title alone stands alone, and without either there is the name of the file with
/// its ending. A tag that is empty is as good as missing.
pub proof fn law_headlines_say_what_is_known(t: Track)
    ensures
        ({
            let artist = t.artist matches Some(a) && a@.len() > 0;
            let title = t.title matches Some(b) && b@.len() > 0;
            &&& artist && title ==> headline(t) == t.artist->0@ + " — "@ + t.title->0@
            &&& artist && !title ==> headline(t) == t.artist->0@ + " — "@ + t.file_stem@
            &&& !artist && title ==> headline(t) == t.title->0@
            &&& !artist && !title ==> headline(t) == t.file_name@
        }),
{
}

} // verus!
