//! Decimal numbers as text.

use crate::text::chars_of;
use vstd::arithmetic::power::{lemma_pow0, lemma_pow1, lemma_pow_adds, pow};
use vstd::prelude::*;

verus! {

/// The character of a decimal digit.
pub open spec fn digit_char(d: nat) -> char {
    (48 + d) as char
}

/// A number in decimal notation, without leading zeros.
pub open spec fn decimal(n: nat) -> Seq<char>
    decreases n,
{
    if n < 10 {
        seq![digit_char(n)]
    } else {
        decimal(n / 10).push(digit_char(n % 10))
    }
}

/// Appends a number in decimal notation.
pub fn push_decimal(out: &mut String, n: u64)
    ensures
        final(out)@ == old(out)@ + decimal(n as nat),
    decreases n,
{
    if n >= 10 {
        push_decimal(out, n / 10);
    }
    let digit: u8 = (n % 10) as u8;
    out.push((48 + digit) as char);
    assert(out@ =~= old(out)@ + decimal(n as nat));
}

/// Whether a character is one of `0` to `9`.
pub open spec fn is_digit(c: char) -> bool {
    '0' <= c <= '9'
}

/// The number that a sequence of decimal digits denotes; zero where there are none.
pub open spec fn decimal_value(digits: Seq<char>) -> nat
    decreases digits.len(),
{
    if digits.len() == 0 {
        0
    } else {
        10 * decimal_value(digits.drop_last()) + (digits.last() as nat - '0' as nat) as nat
    }
}

/// The text without the `+` that it may begin with.
pub open spec fn without_plus(s: Seq<char>) -> Seq<char> {
    if s.len() > 0 && s[0] == '+' {
        s.skip(1)
    } else {
        s
    }
}

/// The number between 0 and 255 that a text denotes: at least one decimal digit and nothing
/// else, after an optional `+`.
pub open spec fn parsed_u8(s: Seq<char>) -> Option<u8> {
    let digits = without_plus(s);
    if digits.len() > 0 && (forall|i: int| 0 <= i < digits.len() ==> is_digit(#[trigger] digits[i]))
        && decimal_value(digits) <= 255 {
        Some(decimal_value(digits) as u8)
    } else {
        None
    }
}

/// A front part of some digits denotes no more than all of them.
proof fn lemma_value_of_front(digits: Seq<char>, k: int)
    requires
        0 <= k <= digits.len(),
    ensures
        decimal_value(digits.take(k)) <= decimal_value(digits),
    decreases digits.len(),
{
    if k == digits.len() {
        assert(digits.take(k) =~= digits);
    } else {
        lemma_value_of_front(digits.drop_last(), k);
        assert(digits.drop_last().take(k) =~= digits.take(k));
    }
}

/// Reads a number between 0 and 255.
pub fn parse_u8(text: &str) -> (number: Option<u8>)
    ensures
        number == parsed_u8(text@),
{
    let chars = chars_of(text);
    let start: usize = if chars.len() > 0 && chars[0] == '+' {
        1
    } else {
        0
    };
    if start == chars.len() {
        return None;
    }
    let ghost digits = without_plus(text@);
    assert(digits =~= chars@.skip(start as int));
    let mut value: u16 = 0;
    let mut i: usize = start;
    while i < chars.len()
        invariant
            start <= i <= chars@.len(),
            start < chars@.len(),
            digits == chars@.skip(start as int),
            digits == without_plus(text@),
            value <= 255,
            forall|j: int| 0 <= j < i - start ==> is_digit(#[trigger] digits[j]),
            value == decimal_value(digits.take(i - start)),
        decreases chars@.len() - i,
    {
        let c = chars[i];
        assert(digits[i - start] == c);
        if c < '0' || c > '9' {
            assert(!is_digit(digits[i - start]));
            return None;
        }
        assert(digits.take(i + 1 - start).drop_last() =~= digits.take(i - start));
        value = value * 10 + (c as u16 - 48);
        if value > 255 {
            proof {
                lemma_value_of_front(digits, i + 1 - start);
            }
            return None;
        }
        i = i + 1;
    }
    assert(digits.take(digits.len() as int) =~= digits);
    Some(value as u8)
}

proof fn lemma_decimal_digits(n: nat)
    ensures
        decimal(n).len() > 0,
        forall|i: int| 0 <= i < decimal(n).len() ==> is_digit(#[trigger] decimal(n)[i]),
        decimal_value(decimal(n)) == n,
    decreases n,
{
    if n >= 10 {
        lemma_decimal_digits(n / 10);
        assert(decimal(n).drop_last() =~= decimal(n / 10));
    } else {
        assert(decimal(n).drop_last() =~= Seq::<char>::empty());
        assert(decimal_value(Seq::<char>::empty()) == 0);
    }
}

/// Decimal notation consists of digits and reads back as the number that was written.
pub proof fn law_decimal_reads_back(n: nat)
    ensures
        decimal(n).len() > 0,
        forall|i: int| 0 <= i < decimal(n).len() ==> is_digit(#[trigger] decimal(n)[i]),
        decimal_value(decimal(n)) == n,
        n <= 255 ==> parsed_u8(decimal(n)) == Some(n as u8),
{
    lemma_decimal_digits(n);
    assert(is_digit(decimal(n)[0]));
}

/// The digits are the characters with the codes 48 to 57, and each denotes its distance from 48.
pub proof fn law_one_digit(c: char)
    ensures
        is_digit(c) <==> 48 <= c as int <= 57,
        is_digit(c) ==> decimal_value(seq![c]) == c as int - 48,
{
    assert(seq![c].drop_last() =~= Seq::<char>::empty());
    assert(decimal_value(Seq::<char>::empty()) == 0);
}

/// Each digit counts ten times as much as the one behind it.
pub proof fn law_digits_in_parts(a: Seq<char>, b: Seq<char>)
    ensures
        decimal_value(a + b) == decimal_value(a) * pow(10, b.len()) + decimal_value(b),
    decreases b.len(),
{
    if b.len() == 0 {
        assert(a + b =~= a);
        lemma_pow0(10);
        assert(decimal_value(b) == 0);
    } else {
        let front = b.drop_last();
        law_digits_in_parts(a, front);
        assert((a + b).drop_last() =~= a + front);
        assert((a + b).last() == b.last());
        lemma_pow1(10);
        lemma_pow_adds(10, 1, front.len());
        assert(1 + front.len() == b.len());
        let v: int = decimal_value(a) as int;
        let p: int = pow(10, front.len());
        assert(10 * (v * p) == v * (10 * p)) by (nonlinear_arith);
    }
}

/// Decimal notation has no leading zero, but for the number zero itself.
pub proof fn law_no_leading_zero(n: nat)
    ensures
        n == 0 ==> decimal(n) == seq!['0'],
        n > 0 ==> decimal(n)[0] != '0',
    decreases n,
{
    lemma_decimal_digits(n);
    if n >= 10 {
        law_no_leading_zero(n / 10);
        lemma_decimal_digits(n / 10);
        assert(decimal(n)[0] == decimal(n / 10)[0]);
    }
}

/// Digits are read as the number that they denote, where it is at most 255, and so are digits
/// behind a `+`; a larger number is not read.
pub proof fn law_digits_are_read(digits: Seq<char>)
    requires
        digits.len() > 0,
        forall|i: int| 0 <= i < digits.len() ==> is_digit(#[trigger] digits[i]),
    ensures
        decimal_value(digits) <= 255 ==> parsed_u8(digits) == Some(decimal_value(digits) as u8)
            && parsed_u8(seq!['+'] + digits) == Some(decimal_value(digits) as u8),
        decimal_value(digits) > 255 ==> parsed_u8(digits) is None && parsed_u8(
            seq!['+'] + digits,
        ) is None,
{
    assert(is_digit(digits[0]));
    assert((seq!['+'] + digits).skip(1) =~= digits);
}

/// A text with anything but digits is no number, and neither is one without digits.
pub proof fn law_only_digits_are_read(s: Seq<char>)
    requires
        s.len() == 0 || s == seq!['+'] || exists|i: int|
            0 <= i < s.len() && !is_digit(#[trigger] s[i]) && !(i == 0 && s[i] == '+'),
    ensures
        parsed_u8(s) is None,
{
    if s.len() > 0 && s != seq!['+'] {
        let i = choose|i: int|
            0 <= i < s.len() && !is_digit(#[trigger] s[i]) && !(i == 0 && s[i] == '+');
        let digits = without_plus(s);
        if s[0] == '+' {
            assert(digits[i - 1] == s[i]);
        } else {
            assert(digits[i] == s[i]);
        }
    }
}

} // verus!
