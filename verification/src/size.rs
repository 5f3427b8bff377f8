//! Sizes as text: decoding a size such as `12.3G` into a number of bytes,
//! and encoding a number of bytes for people to read.
//!
//! The units are binary: `K` is 1024 bytes, and each further unit is 1024
//! times the one before it, up to `E`.

use crate::decimal::{is_digit, pow10, MAX_MULTIPLIER};
use crate::literal::{literal, parse_literal, truncated};
use crate::rounding::{hold, lemma_pow2_values, round_half_even, rounded_floor};
use crate::text::{alphabetic, to_chars, trim, trimmed};
use vstd::prelude::*;
use vstd::slice::slice_subrange;

verus! {

/// Why a size could not be decoded.
#[derive(Debug, Clone, Copy, PartialEq, Eq, Structural)]
pub enum ParseError {
    /// The part before the unit is no number literal.
    InvalidNumber,
    /// The text ends in a letter that is no unit.
    UnknownSuffix,
}

/// The number of bytes that a unit letter stands for: 1024 for `K`, and
/// for each letter after it 1024 times as much.
pub open spec fn suffix_multiplier(c: char) -> Option<nat> {
    if c == 'K' {
        Some(0x400)
    } else if c == 'M' {
        Some(0x10_0000)
    } else if c == 'G' {
        Some(0x4000_0000)
    } else if c == 'T' {
        Some(0x100_0000_0000)
    } else if c == 'P' {
        Some(0x4_0000_0000_0000)
    } else if c == 'E' {
        Some(0x1000_0000_0000_0000)
    } else {
        None
    }
}

/// The number of bytes that a trimmed size stands for, where
/// `ends_in_letter` tells whether its last character is a letter.
///
/// A number followed by `B` is a number of bytes. Failing that, a last
/// character that is a letter is taken for a unit: what stands before it
/// must be a number, and the letter one of the units. A text that ends in
/// no letter is a number of bytes as a whole. The product of number and
/// unit is rounded to 53 significant bits, of which the whole part counts.
pub open spec fn trimmed_size(t: Seq<char>, ends_in_letter: bool) -> Result<u64, ParseError> {
    let head = t.drop_last();
    if t.len() == 0 {
        Err(ParseError::InvalidNumber)
    } else if t.last() == 'B' && literal(head) is Some {
        Ok(truncated(literal(head)->0, 1))
    } else if ends_in_letter {
        match (literal(head), suffix_multiplier(t.last())) {
            (None, _) => Err(ParseError::InvalidNumber),
            (Some(_), None) => Err(ParseError::UnknownSuffix),
            (Some(number), Some(multiplier)) => Ok(truncated(number, multiplier)),
        }
    } else {
        match literal(t) {
            Some(number) => Ok(truncated(number, 1)),
            None => Err(ParseError::InvalidNumber),
        }
    }
}

/// The number of bytes that a size stands for.
///
/// The empty text and a lone dash stand for zero. Any other text is
/// trimmed and then read as `trimmed_size` says.
pub open spec fn parse_size(s: Seq<char>) -> Result<u64, ParseError> {
    let t = trimmed(s);
    if s.len() == 0 || s == seq!['-'] {
        Ok(0)
    } else {
        trimmed_size(t, t.len() > 0 && alphabetic(t.last()))
    }
}

fn multiplier_of(c: char) -> (r: Option<u64>)
    ensures
        match suffix_multiplier(c) {
            Some(m) => r == Some(m as u64) && 1 <= m <= MAX_MULTIPLIER,
            None => r is None,
        },
{
    if c == 'K' {
        Some(0x400)
    } else if c == 'M' {
        Some(0x10_0000)
    } else if c == 'G' {
        Some(0x4000_0000)
    } else if c == 'T' {
        Some(0x100_0000_0000)
    } else if c == 'P' {
        Some(0x4_0000_0000_0000)
    } else if c == 'E' {
        Some(0x1000_0000_0000_0000)
    } else {
        None
    }
}

/// Decodes a trimmed size, given whether its last character is a letter.
pub fn parse_trimmed_size(t: &[char], ends_in_letter: bool) -> (r: Result<u64, ParseError>)
    ensures
        r == trimmed_size(t@, ends_in_letter),
{
    let n: usize = t.len();
    if n == 0 {
        return Err(ParseError::InvalidNumber);
    }
    let last = t[n - 1];
    let head = slice_subrange(t, 0, n - 1);
    assert(head@ == t@.drop_last());
    if last == 'B' {
        if let Some(bytes) = parse_literal(head, 1) {
            return Ok(bytes);
        }
    }
    if ends_in_letter {
        match multiplier_of(last) {
            Some(multiplier) => match parse_literal(head, multiplier) {
                Some(bytes) => Ok(bytes),
                None => Err(ParseError::InvalidNumber),
            },
            None => match parse_literal(head, 1) {
                Some(_) => Err(ParseError::UnknownSuffix),
                None => Err(ParseError::InvalidNumber),
            },
        }
    } else {
        match parse_literal(t, 1) {
            Some(bytes) => Ok(bytes),
            None => Err(ParseError::InvalidNumber),
        }
    }
}

/// Decodes a size into a number of bytes.
pub fn parse_size_string(size_str: &str) -> (r: Result<u64, ParseError>)
    ensures
        r == parse_size(size_str@),
{
    let chars = to_chars(size_str);
    if chars.len() == 0 || (chars.len() == 1 && chars[0] == '-') {
        assert(chars@.len() == 1 ==> chars@ == seq![chars@[0]]);
        return Ok(0);
    }
    assert(size_str@ != seq!['-']) by {
        assert(seq!['-'].len() == 1 && seq!['-'][0] == '-');
    }
    let t = trim(chars.as_slice());
    let n: usize = t.len();
    let ends_in_letter = n > 0 && t[n - 1].is_alphabetic();
    parse_trimmed_size(t.as_slice(), ends_in_letter)
}

/// The largest unit that is not above `n`: 0 for bytes, 6 for `E`.
pub open spec fn unit_index(n: nat) -> nat {
    if n < 0x400 {
        0
    } else if n < 0x10_0000 {
        1
    } else if n < 0x4000_0000 {
        2
    } else if n < 0x100_0000_0000 {
        3
    } else if n < 0x4_0000_0000_0000 {
        4
    } else if n < 0x1000_0000_0000_0000 {
        5
    } else {
        6
    }
}

/// The number of bytes in the unit: 1024 to the `index`.
pub open spec fn unit_size(index: nat) -> nat {
    if index == 0 {
        1
    } else if index == 1 {
        0x400
    } else if index == 2 {
        0x10_0000
    } else if index == 3 {
        0x4000_0000
    } else if index == 4 {
        0x100_0000_0000
    } else if index == 5 {
        0x4_0000_0000_0000
    } else {
        0x1000_0000_0000_0000
    }
}

/// The letter of the unit.
pub open spec fn unit_letter(index: nat) -> char {
    if index == 0 {
        'B'
    } else if index == 1 {
        'K'
    } else if index == 2 {
        'M'
    } else if index == 3 {
        'G'
    } else if index == 4 {
        'T'
    } else if index == 5 {
        'P'
    } else {
        'E'
    }
}

/// One of the seven letters that an encoded size ends in.
pub open spec fn is_unit_letter(c: char) -> bool {
    c == 'B' || c == 'K' || c == 'M' || c == 'G' || c == 'T' || c == 'P' || c == 'E'
}

/// The digits behind the point: none from a hundred units on, one from
/// ten units on, two below.
pub open spec fn decimal_places(n: nat, unit: nat) -> nat {
    if n >= 100 * unit {
        0
    } else if n >= 10 * unit {
        1
    } else {
        2
    }
}

/// The character of a digit.
pub open spec fn digit_char(d: nat) -> char {
    ('0' as int + d) as char
}

/// The decimal digits of a number, without leading zeros.
pub open spec fn decimal_text(n: nat) -> Seq<char>
    decreases n,
{
    if n < 10 {
        seq![digit_char(n)]
    } else {
        decimal_text(n / 10).push(digit_char(n % 10))
    }
}

/// The last `width` decimal digits of a number, with leading zeros.
pub open spec fn padded_text(n: nat, width: nat) -> Seq<char>
    decreases width,
{
    if width == 0 {
        Seq::empty()
    } else {
        padded_text(n / 10, (width - 1) as nat).push(digit_char(n % 10))
    }
}

/// A number of hundredths, tenths or units, written with that many digits
/// behind the point.
pub open spec fn fixed_point_text(q: nat, places: nat) -> Seq<char> {
    if places == 0 {
        decimal_text(q)
    } else {
        decimal_text(q / pow10(places)) + seq!['.'] + padded_text(q % pow10(places), places)
    }
}

/// A number of bytes as people read it.
///
/// The unit is the largest that is not above the number of bytes. Below
/// 1024 the number is written as it is, with `B` behind it. From there on
/// it is written as a number of units, with the unit's letter behind it:
/// the number of bytes is held with 53 significant bits, divided by the
/// unit, and rounded to the nearest value with two digits behind the
/// point below ten units, one below a hundred, and none from there on; a
/// tie goes to the even side.
pub open spec fn size_text(n: nat) -> Seq<char> {
    let index = unit_index(n);
    let unit = unit_size(index);
    let held = rounded_floor(n, 1);
    let places = decimal_places(held, unit);
    if index == 0 {
        decimal_text(n).push('B')
    } else {
        fixed_point_text(round_half_even(held * pow10(places), unit), places).push(
            unit_letter(index),
        )
    }
}

/// The shape of an encoded size: digits, at most one point with one or
/// two digits behind it, and one unit letter at the end.
pub open spec fn is_size_text(t: Seq<char>) -> bool {
    &&& t.len() >= 2
    &&& is_unit_letter(t.last())
    &&& forall|i: int| 0 <= i < t.len() - 1 ==> is_digit(#[trigger] t[i]) || t[i] == '.'
    &&& forall|i: int|
        0 <= i < t.len() - 1 && #[trigger] t[i] == '.' ==> 1 <= i && t.len() - 4 <= i <= t.len()
            - 3
    &&& forall|i: int, j: int|
        0 <= i < j < t.len() - 1 && #[trigger] t[i] == '.' ==> #[trigger] t[j] != '.'
}

proof fn lemma_decimal_text_digits(n: nat)
    ensures
        decimal_text(n).len() >= 1,
        forall|i: int| 0 <= i < decimal_text(n).len() ==> is_digit(#[trigger] decimal_text(n)[i]),
    decreases n,
{
    if n >= 10 {
        lemma_decimal_text_digits(n / 10);
    }
}

proof fn lemma_padded_text_digits(n: nat, width: nat)
    ensures
        padded_text(n, width).len() == width,
        forall|i: int|
            0 <= i < width ==> is_digit(#[trigger] padded_text(n, width)[i]),
    decreases width,
{
    if width > 0 {
        lemma_padded_text_digits(n / 10, (width - 1) as nat);
    }
}

/// Every encoded size ends in exactly one unit letter and has no more than
/// two digits behind the point.
pub proof fn lemma_size_text_shape(n: nat)
    ensures
        is_size_text(size_text(n)),
{
    let index = unit_index(n);
    let unit = unit_size(index);
    let held = rounded_floor(n, 1);
    let places = decimal_places(held, unit);
    let t = size_text(n);
    if index == 0 {
        lemma_decimal_text_digits(n);
        let body = decimal_text(n);
        assert forall|i: int| 0 <= i < t.len() - 1 implies is_digit(#[trigger] t[i]) by {
            assert(t[i] == body[i]);
        }
    } else {
        let q = round_half_even(held * pow10(places), unit);
        if places == 0 {
            lemma_decimal_text_digits(q);
            let body = decimal_text(q);
            assert forall|i: int| 0 <= i < t.len() - 1 implies is_digit(#[trigger] t[i]) by {
                assert(t[i] == body[i]);
            }
        } else {
            let whole = decimal_text(q / pow10(places));
            let part = padded_text(q % pow10(places), places);
            lemma_decimal_text_digits(q / pow10(places));
            lemma_padded_text_digits(q % pow10(places), places);
            let at = whole.len() as int;
            assert(t.len() == at + 1 + places + 1);
            assert forall|i: int| 0 <= i < t.len() - 1 implies (if i == at {
                #[trigger] t[i] == '.'
            } else {
                is_digit(t[i])
            }) by {
                if i < at {
                    assert(t[i] == whole[i]);
                } else if i > at {
                    assert(t[i] == part[i - at - 1]);
                }
            }
        }
    }
}

/// An encoded size ends in the letter of the largest unit that is not
/// above the number of bytes.
pub proof fn lemma_size_text_unit(n: nat)
    ensures
        size_text(n).last() == unit_letter(unit_index(n)),
        unit_index(n) <= 6,
        n >= 1 ==> unit_size(unit_index(n)) <= n,
        unit_index(n) < 6 ==> n < unit_size(unit_index(n) + 1),
{
}

fn push_digit(s: &mut String, d: u8)
    requires
        d < 10,
    ensures
        final(s)@ == old(s)@.push(digit_char(d as nat)),
{
    s.push((48u8 + d) as char);
}

fn push_decimal(s: &mut String, n: u128)
    ensures
        final(s)@ == old(s)@ + decimal_text(n as nat),
    decreases n,
{
    if n >= 10 {
        push_decimal(s, n / 10);
    }
    push_digit(s, (n % 10) as u8);
}

fn push_padded(s: &mut String, n: u128, width: u32)
    ensures
        final(s)@ == old(s)@ + padded_text(n as nat, width as nat),
    decreases width,
{
    if width > 0 {
        push_padded(s, n / 10, width - 1);
        push_digit(s, (n % 10) as u8);
    }
}

fn round_divide(numerator: u128, denominator: u128) -> (q: u128)
    requires
        denominator > 0,
        denominator <= MAX_MULTIPLIER,
        numerator < u128::MAX,
    ensures
        q == round_half_even(numerator as nat, denominator as nat),
{
    let whole: u128 = numerator / denominator;
    let rest: u128 = numerator % denominator;
    if 2 * rest > denominator || (2 * rest == denominator && whole % 2 == 1) {
        whole + 1
    } else {
        whole
    }
}

fn unit_of(bytes: u128) -> (r: (u128, char))
    ensures
        r.0 == unit_size(unit_index(bytes as nat)),
        r.1 == unit_letter(unit_index(bytes as nat)),
        1 <= r.0 <= MAX_MULTIPLIER,
{
    if bytes < 0x400 {
        (1, 'B')
    } else if bytes < 0x10_0000 {
        (0x400, 'K')
    } else if bytes < 0x4000_0000 {
        (0x10_0000, 'M')
    } else if bytes < 0x100_0000_0000 {
        (0x4000_0000, 'G')
    } else if bytes < 0x4_0000_0000_0000 {
        (0x100_0000_0000, 'T')
    } else if bytes < 0x1000_0000_0000_0000 {
        (0x4_0000_0000_0000, 'P')
    } else {
        (0x1000_0000_0000_0000, 'E')
    }
}

fn places_of(n: u128, unit: u128) -> (r: (u32, u128))
    requires
        0 < unit <= MAX_MULTIPLIER,
    ensures
        r.0 == decimal_places(n as nat, unit as nat),
        r.1 == pow10(r.0 as nat),
        1 <= r.1 <= 100,
{
    reveal_with_fuel(pow10, 3);
    if n >= 100 * unit {
        (0, 1)
    } else if n >= 10 * unit {
        (1, 10)
    } else {
        (2, 100)
    }
}

fn push_fixed_point(s: &mut String, q: u128, places: u32, scale: u128)
    requires
        scale == pow10(places as nat),
        scale > 0,
    ensures
        final(s)@ == old(s)@ + fixed_point_text(q as nat, places as nat),
{
    if places == 0 {
        push_decimal(s, q);
    } else {
        let ghost before = s@;
        push_decimal(s, q / scale);
        s.push('.');
        push_padded(s, q % scale, places);
        assert(s@ == before + (decimal_text((q / scale) as nat) + seq!['.'] + padded_text(
            (q % scale) as nat,
            places as nat,
        )));
    }
}

/// Encodes a number of bytes for people to read.
pub fn format_bytes(bytes: u64) -> (s: String)
    ensures
        s@ == size_text(bytes as nat),
        is_size_text(s@),
{
    proof {
        lemma_size_text_shape(bytes as nat);
        lemma_pow2_values();
    }
    let mut s = String::new();
    let (unit, letter) = unit_of(bytes as u128);
    if bytes < 0x400 {
        push_decimal(&mut s, bytes as u128);
    } else {
        let held = hold(bytes);
        let (places, scale) = places_of(held, unit);
        assert(held * scale <= 0x1_0000_0000_0000_0000 * 100) by (nonlinear_arith)
            requires
                held <= 0x1_0000_0000_0000_0000,
                scale <= 100,
        ;
        let q = round_divide(held * scale, unit);
        push_fixed_point(&mut s, q, places, scale);
    }
    s.push(letter);
    s
}

} // verus!
