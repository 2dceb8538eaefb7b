//! Numbers and labels in words.
use vstd::prelude::*;
use vstd::string::*;
use vstd::utf8::{
    decode_utf8, decode_utf8_split, encode_utf8, encode_utf8_decode_utf8, encode_utf8_valid_utf8,
    is_char_boundary,
};

verus! {

/// `String::push` of the standard library: the character is appended.
pub assume_specification[ String::push ](s: &mut String, c: char)
    ensures
        final(s)@ == old(s)@.push(c),
;

/// The decimal digit `d`.
pub open spec fn digit(d: nat) -> char {
    (d + 48) as char
}

/// A number in decimal, without leading zeros.
pub open spec fn digits(n: nat) -> Seq<char>
    decreases n,
{
    if n < 10 {
        seq![digit(n)]
    } else {
        digits(n / 10).push(digit(n % 10))
    }
}

/// A number in decimal, with a minus when it is negative.
pub open spec fn signed_digits(n: int) -> Seq<char> {
    if n < 0 {
        seq!['-'] + digits((-n) as nat)
    } else {
        digits(n as nat)
    }
}

/// A number in decimal with its sign, plus or minus.
pub open spec fn plus_digits(n: int) -> Seq<char> {
    if n < 0 {
        signed_digits(n)
    } else {
        seq!['+'] + digits(n as nat)
    }
}

/// A number in decimal, with at least two digits.
pub open spec fn two_digits(n: nat) -> Seq<char> {
    if n < 10 {
        seq!['0'] + digits(n)
    } else {
        digits(n)
    }
}

fn push_digits(out: &mut String, n: u64)
    ensures
        final(out)@ == old(out)@ + digits(n as nat),
    decreases n,
{
    if n >= 10 {
        push_digits(out, n / 10);
    }
    let d: u8 = (n % 10) as u8 + 48;
    let ghost before = out@;
    out.push(d as char);
    assert(out@ =~= old(out)@ + digits(n as nat));
}

/// A number in decimal.
pub fn decimal(n: u64) -> (text: String)
    ensures
        text@ == digits(n as nat),
{
    let mut text: String = String::new();
    push_digits(&mut text, n);
    assert(text@ =~= digits(n as nat));
    text
}

/// A number in decimal, with a minus when it is negative.
pub fn signed_decimal(n: i64) -> (text: String)
    ensures
        text@ == signed_digits(n as int),
{
    let mut text: String = String::new();
    if n < 0 {
        text.push('-');
        let m: u64 = (-(n as i128)) as u64;
        push_digits(&mut text, m);
    } else {
        push_digits(&mut text, n as u64);
    }
    assert(text@ =~= signed_digits(n as int));
    text
}

/// A number in decimal with its sign, plus or minus.
pub fn plus_decimal(n: i64) -> (text: String)
    ensures
        text@ == plus_digits(n as int),
{
    if n < 0 {
        signed_decimal(n)
    } else {
        let mut text: String = String::new();
        text.push('+');
        push_digits(&mut text, n as u64);
        assert(text@ =~= plus_digits(n as int));
        text
    }
}

/// A number in decimal, with at least two digits.
pub fn two_digit_decimal(n: u64) -> (text: String)
    ensures
        text@ == two_digits(n as nat),
{
    let mut text: String = String::new();
    if n < 10 {
        text.push('0');
    }
    push_digits(&mut text, n);
    assert(text@ =~= two_digits(n as nat));
    text
}

fn char_list(s: &str) -> (list: Vec<char>)
    ensures
        list@ == s@,
{
    let n = s.unicode_len();
    let mut list: Vec<char> = Vec::new();
    let mut i: usize = 0;
    while i < n
        invariant
            i <= n == s@.len(),
            list@ =~= s@.take(i as int),
        decreases n - i,
    {
        list.push(s.get_char(i));
        i = i + 1;
    }
    list
}

fn text_of(list: &Vec<char>, from: usize, to: usize) -> (text: String)
    requires
        from <= to <= list@.len(),
    ensures
        text@ == list@.subrange(from as int, to as int),
{
    let mut text: String = String::new();
    let mut i: usize = from;
    while i < to
        invariant
            from <= i <= to <= list@.len(),
            text@ =~= list@.subrange(from as int, i as int),
        decreases to - i,
    {
        text.push(list[i]);
        i = i + 1;
    }
    text
}

/// Text without the characters at its end that are `c`.
pub open spec fn trimmed_end(s: Seq<char>, c: char) -> Seq<char>
    decreases s.len(),
{
    if s.len() > 0 && s.last() == c {
        trimmed_end(s.drop_last(), c)
    } else {
        s
    }
}

fn trim_end(list: &Vec<char>, n: usize, c: char) -> (m: usize)
    requires
        n <= list@.len(),
    ensures
        m <= n,
        list@.take(m as int) == trimmed_end(list@.take(n as int), c),
{
    let mut m: usize = n;
    while m > 0 && list[m - 1] == c
        invariant
            m <= n <= list@.len(),
            trimmed_end(list@.take(m as int), c) == trimmed_end(list@.take(n as int), c),
        decreases m,
    {
        assert(list@.take(m as int).drop_last() =~= list@.take(m - 1));
        m = m - 1;
    }
    m
}

/// A decimal number without the zeros, and then the points, that end it; without
/// a point it stays as it is.
pub open spec fn stripped(s: Seq<char>) -> Seq<char> {
    if s.contains('.') {
        trimmed_end(trimmed_end(s, '0'), '.')
    } else {
        s
    }
}

/// Drops the zeros that end a decimal fraction, and a point that is left behind.
pub fn strip_trailing(s: &str) -> (text: String)
    ensures
        text@ == stripped(s@),
{
    let list = char_list(s);
    let n = list.len();
    let mut i: usize = 0;
    while i < n && list[i] != '.'
        invariant
            i <= n == list@.len(),
            list@ == s@,
            forall|k: int| 0 <= k < i ==> list@[k] != '.',
        decreases n - i,
    {
        i = i + 1;
    }
    let mut m: usize = n;
    assert(list@.take(n as int) =~= list@);
    if i < n {
        assert(s@[i as int] == '.');
        let k = trim_end(&list, n, '0');
        m = trim_end(&list, k, '.');
    }
    assert(list@.subrange(0, m as int) =~= list@.take(m as int));
    text_of(&list, 0, m)
}

/// `n` spaces.
pub open spec fn spaces(n: nat) -> Seq<char> {
    Seq::new(n, |i: int| ' ')
}

/// Moves a text to the right end of a field of `width` bytes.
pub fn pad_left(s: &str, width: usize) -> (text: String)
    ensures
        text@ == if encode_utf8(s@).len() >= width {
            s@
        } else {
            spaces((width - encode_utf8(s@).len()) as nat) + s@
        },
{
    let mut text: String = String::new();
    let len = s.as_bytes().len();
    if len < width {
        let n = width - len;
        let mut i: usize = 0;
        while i < n
            invariant
                i <= n,
                text@ =~= spaces(i as nat),
            decreases n - i,
        {
            text.push(' ');
            i = i + 1;
        }
    }
    text.append(s);
    assert(encode_utf8(s@).len() >= width ==> text@ =~= s@);
    text
}

/// The first byte of a text, if there is one; it has to be a whole character.
pub fn first_char<'a>(s: &'a str) -> (first: &'a str)
    requires
        s@.len() > 0 ==> is_char_boundary(encode_utf8(s@), 1),
    ensures
        first@ == if s@.len() == 0 {
            s@
        } else {
            s@.take(1)
        },
{
    if s.is_empty() {
        s
    } else {
        let (first, rest) = s.split_at(1);
        proof {
            let bytes = encode_utf8(s@);
            encode_utf8_valid_utf8(s@);
            encode_utf8_decode_utf8(s@);
            encode_utf8_decode_utf8(first@);
            encode_utf8_decode_utf8(rest@);
            encode_utf8_valid_utf8(first@);
            decode_utf8_split(bytes, 1);
            let one = encode_utf8(first@);
            assert(one =~= bytes.subrange(0, 1));
            assert(one.len() == 1);
            assert(encode_utf8(rest@) =~= bytes.subrange(1, bytes.len() as int));
            reveal_with_fuel(decode_utf8, 2);
            assert(first@.len() == 1);
            assert(s@ =~= first@ + rest@);
            assert(first@ =~= s@.take(1));
        }
        first
    }
}

} // verus!
