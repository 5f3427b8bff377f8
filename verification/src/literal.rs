//! Number literals: an optional sign, then `inf`, `infinity` or `nan` in
//! any mix of upper and lower case, or decimal digits with an optional
//! point and an optional exponent.

use crate::decimal::{
    all_digits, digit, digits_value, is_digit, lemma_digits_value_bound,
    lemma_scaled_large_exponent, lemma_scaled_small_exponent, scale_digits, scaled,
    MAX_MULTIPLIER,
};
use crate::rounding::saturated;
use vstd::prelude::*;
use vstd::slice::slice_subrange;

verus! {

/// The bound at which an exponent is cut off while it is read: two to the
/// ninety-ninth. Beyond it the sign alone decides the result.
pub const EXPONENT_CAP: i128 = 0x8_0000_0000_0000_0000_0000_0000;

/// The exponent, or the cap where it lies beyond the cap.
pub open spec fn bounded(e: int) -> int {
    if e > EXPONENT_CAP {
        EXPONENT_CAP as int
    } else if e < -EXPONENT_CAP {
        -EXPONENT_CAP
    } else {
        e
    }
}

/// What a literal without its sign stands for.
pub enum Magnitude {
    NotANumber,
    Infinite,
    /// `mantissa * 10^exponent`
    Finite { mantissa: nat, exponent: int },
}

/// What a literal stands for.
pub struct Literal {
    pub negative: bool,
    pub magnitude: Magnitude,
}

/// The number of digits that follow one another from `from` on.
pub open spec fn digit_run(s: Seq<char>, from: int) -> nat
    decreases s.len() - from,
{
    if 0 <= from < s.len() && is_digit(s[from]) {
        1 + digit_run(s, from + 1)
    } else {
        0
    }
}

/// One where the text begins with a sign, zero where it does not.
pub open spec fn sign_len(s: Seq<char>) -> int {
    if s.len() > 0 && (s[0] == '+' || s[0] == '-') {
        1
    } else {
        0
    }
}

/// The text begins with a minus sign.
pub open spec fn is_negative(s: Seq<char>) -> bool {
    s.len() > 0 && s[0] == '-'
}

/// The character is the given letter, small or capital.
pub open spec fn is_letter(c: char, lower: char, upper: char) -> bool {
    c == lower || c == upper
}

/// The text is `nan`, in any mix of small and capital letters.
pub open spec fn spells_nan(s: Seq<char>) -> bool {
    &&& s.len() == 3
    &&& is_letter(s[0], 'n', 'N')
    &&& is_letter(s[1], 'a', 'A')
    &&& is_letter(s[2], 'n', 'N')
}

/// The text is `inf`, in any mix of small and capital letters.
pub open spec fn spells_inf(s: Seq<char>) -> bool {
    &&& s.len() == 3
    &&& is_letter(s[0], 'i', 'I')
    &&& is_letter(s[1], 'n', 'N')
    &&& is_letter(s[2], 'f', 'F')
}

/// The text is `infinity`, in any mix of small and capital letters.
pub open spec fn spells_infinity(s: Seq<char>) -> bool {
    &&& s.len() == 8
    &&& spells_inf(s.take(3))
    &&& is_letter(s[3], 'i', 'I')
    &&& is_letter(s[4], 'n', 'N')
    &&& is_letter(s[5], 'i', 'I')
    &&& is_letter(s[6], 't', 'T')
    &&& is_letter(s[7], 'y', 'Y')
}

/// The exponent that `t` spells, where `t` is what follows a mantissa:
/// `e` or `E`, an optional sign, and at least one digit.
pub open spec fn exponent_of(t: Seq<char>) -> Option<int> {
    let u = t.skip(1);
    let ds = u.skip(sign_len(u));
    if t.len() > 0 && is_letter(t[0], 'e', 'E') && ds.len() > 0 && all_digits(ds) {
        Some(
            if is_negative(u) {
                -(digits_value(ds) as int)
            } else {
                digits_value(ds) as int
            },
        )
    } else {
        None
    }
}

/// What a string of digits with an optional point and exponent stands for.
/// At least one digit stands before or behind the point.
pub open spec fn decimal(b: Seq<char>) -> Option<Magnitude> {
    let int_len = digit_run(b, 0) as int;
    let has_point = int_len < b.len() && b[int_len] == '.';
    let frac_start = if has_point {
        int_len + 1
    } else {
        int_len
    };
    let frac_len = if has_point {
        digit_run(b, frac_start) as int
    } else {
        0
    };
    let end = frac_start + frac_len;
    let mantissa = digits_value(b.subrange(0, int_len) + b.subrange(frac_start, end));
    if int_len + frac_len == 0 {
        None
    } else if end == b.len() {
        Some(Magnitude::Finite { mantissa, exponent: -frac_len })
    } else {
        match exponent_of(b.skip(end)) {
            Some(e) => Some(Magnitude::Finite { mantissa, exponent: e - frac_len }),
            None => None,
        }
    }
}

/// What a literal stands for, or `None` where the text is no literal.
pub open spec fn literal(s: Seq<char>) -> Option<Literal> {
    let b = s.skip(sign_len(s));
    let magnitude = if spells_nan(b) {
        Some(Magnitude::NotANumber)
    } else if spells_inf(b) || spells_infinity(b) {
        Some(Magnitude::Infinite)
    } else {
        decimal(b)
    };
    match magnitude {
        Some(magnitude) => Some(Literal { negative: is_negative(s), magnitude }),
        None => None,
    }
}

/// A magnitude times a multiplier as a 64-bit integer. The product of a
/// number and the multiplier is rounded to 53 significant bits, as binary
/// floating point of double precision holds it, and what is behind the
/// point is dropped.
/// What is not a number counts as zero, what is too large as the largest
/// value.
pub open spec fn magnitude_value(m: Magnitude, multiplier: nat) -> u64 {
    match m {
        Magnitude::NotANumber => 0,
        Magnitude::Infinite => u64::MAX,
        Magnitude::Finite { mantissa, exponent } => saturated(
            scaled(mantissa, exponent, multiplier),
        ),
    }
}

/// A literal times a multiplier as a 64-bit integer. Everything below zero
/// counts as zero.
pub open spec fn truncated(l: Literal, multiplier: nat) -> u64 {
    if l.negative {
        0
    } else {
        magnitude_value(l.magnitude, multiplier)
    }
}

/// The value of the text as a literal, times a multiplier.
pub open spec fn literal_value(s: Seq<char>, multiplier: nat) -> Option<u64> {
    match literal(s) {
        Some(l) => Some(truncated(l, multiplier)),
        None => None,
    }
}

/// Whether the character is one of the ten decimal digits.
pub fn is_decimal_digit(c: char) -> (b: bool)
    ensures
        b == is_digit(c),
{
    c >= '0' && c <= '9'
}

fn letter(c: char, lower: char, upper: char) -> (b: bool)
    ensures
        b == is_letter(c, lower, upper),
{
    c == lower || c == upper
}

/// Appends the digits that follow one another from `from` on, and returns
/// the position behind them.
fn scan_digits(s: &[char], from: usize, digits: &mut Vec<char>) -> (end: usize)
    requires
        from <= s@.len(),
        all_digits(old(digits)@),
    ensures
        from <= end <= s@.len(),
        end == from + digit_run(s@, from as int),
        final(digits)@ == old(digits)@ + s@.subrange(from as int, end as int),
        all_digits(final(digits)@),
{
    let n: usize = s.len();
    let mut i: usize = from;
    assert(s@.subrange(from as int, from as int) == Seq::<char>::empty());
    assert(digits@ + Seq::<char>::empty() == digits@);
    while i < n && is_decimal_digit(s[i])
        invariant
            from <= i <= n == s@.len(),
            digit_run(s@, from as int) == (i - from) + digit_run(s@, i as int),
            digits@ == old(digits)@ + s@.subrange(from as int, i as int),
            all_digits(digits@),
        decreases n - i,
    {
        proof {
            assert(s@.subrange(from as int, i as int + 1) == s@.subrange(
                from as int,
                i as int,
            ).push(s@[i as int]));
        }
        digits.push(s[i]);
        i += 1;
    }
    i
}

/// Reads the exponent that starts at `from`, cut off at `EXPONENT_CAP`.
#[verifier::loop_isolation(false)]
fn read_exponent(s: &[char], from: usize) -> (r: Option<i128>)
    requires
        from < s@.len(),
    ensures
        match exponent_of(s@.skip(from as int)) {
            Some(e) => r == Some(bounded(e) as i128),
            None => r is None,
        },
{
    let n: usize = s.len();
    let ghost t = s@.skip(from as int);
    let ghost u = t.skip(1);
    assert(t[0] == s@[from as int]);
    assert(u == s@.skip(from as int + 1));
    if !letter(s[from], 'e', 'E') {
        return None;
    }
    let mut start: usize = from + 1;
    let mut negative = false;
    if start < n && (s[start] == '+' || s[start] == '-') {
        negative = s[start] == '-';
        start += 1;
    }
    let ghost ds = u.skip(sign_len(u));
    assert(ds == s@.subrange(start as int, n as int));
    assert(negative == is_negative(u));
    if start == n {
        return None;
    }
    let mut i: usize = start;
    let mut size: i128 = 0;
    assert(s@.subrange(start as int, start as int) == Seq::<char>::empty());
    while i < n
        invariant
            start <= i <= n == s@.len(),
            all_digits(s@.subrange(start as int, i as int)),
            0 <= size <= EXPONENT_CAP,
            size == bounded(digits_value(s@.subrange(start as int, i as int)) as int),
            ds == s@.subrange(start as int, n as int),
        decreases n - i,
    {
        if !is_decimal_digit(s[i]) {
            assert(!is_digit(ds[i - start]));
            return None;
        }
        let x = digit(s[i]);
        proof {
            let next = s@.subrange(start as int, i as int + 1);
            assert(next.drop_last() == s@.subrange(start as int, i as int));
            assert(next.last() == s@[i as int]);
            assert forall|k: int| 0 <= k < next.len() implies is_digit(#[trigger] next[k]) by {
                if k < i - start {
                    assert(next[k] == s@.subrange(start as int, i as int)[k]);
                }
            }
        }
        size = size * 10 + x as i128;
        if size > EXPONENT_CAP {
            size = EXPONENT_CAP;
        }
        i += 1;
    }
    assert(s@.subrange(start as int, n as int) == ds);
    if negative {
        Some(-size)
    } else {
        Some(size)
    }
}

/// The value of a string of digits with an optional point and exponent,
/// times a multiplier.
pub fn decimal_value(b: &[char], multiplier: u64) -> (r: Option<u64>)
    requires
        1 <= multiplier <= MAX_MULTIPLIER,
    ensures
        r == match decimal(b@) {
            Some(m) => Some(magnitude_value(m, multiplier as nat)),
            None => None,
        },
{
    let n: usize = b.len();
    let mut digits: Vec<char> = Vec::new();
    let int_len = scan_digits(b, 0, &mut digits);
    let mut frac_start: usize = int_len;
    let mut end: usize = int_len;
    if int_len < n && b[int_len] == '.' {
        frac_start = int_len + 1;
        end = scan_digits(b, frac_start, &mut digits);
    }
    assert(b@.subrange(int_len as int, int_len as int) == Seq::<char>::empty());
    assert(digits@ == b@.subrange(0, int_len as int) + b@.subrange(
        frac_start as int,
        end as int,
    ));
    if digits.len() == 0 {
        return None;
    }
    let frac_len: i128 = (end - frac_start) as i128;
    let mut exponent: i128 = 0;
    let ghost mut exact: int = 0;
    if end < n {
        match read_exponent(b, end) {
            None => {
                return None;
            },
            Some(e) => {
                exponent = e;
                proof {
                    exact = exponent_of(b@.skip(end as int))->0;
                }
            },
        }
    }
    let shift: i128 = exponent - frac_len;
    proof {
        let mantissa = digits_value(digits@);
        let mult = multiplier as nat;
        lemma_digits_value_bound(digits@);
        if exact > EXPONENT_CAP {
            lemma_scaled_large_exponent(mantissa, shift as int, mult);
            lemma_scaled_large_exponent(mantissa, exact - frac_len, mult);
        } else if exact < -EXPONENT_CAP {
            lemma_scaled_small_exponent(mantissa, digits@.len(), shift as int, mult);
            lemma_scaled_small_exponent(mantissa, digits@.len(), exact - frac_len, mult);
        }
    }
    Some(scale_digits(digits.as_slice(), shift, multiplier))
}

/// The value of a literal times a multiplier, or `None` where the text is
/// no literal.
pub fn parse_literal(s: &[char], multiplier: u64) -> (r: Option<u64>)
    requires
        1 <= multiplier <= MAX_MULTIPLIER,
    ensures
        r == literal_value(s@, multiplier as nat),
{
    let n: usize = s.len();
    let signed = n > 0 && (s[0] == '+' || s[0] == '-');
    let negative = n > 0 && s[0] == '-';
    let b = slice_subrange(s, if signed { 1 } else { 0 }, n);
    assert(b@ == s@.skip(sign_len(s@)));
    let m = b.len();
    let inf = m >= 3 && letter(b[0], 'i', 'I') && letter(b[1], 'n', 'N') && letter(b[2], 'f', 'F');
    let magnitude = if m == 3 && letter(b[0], 'n', 'N') && letter(b[1], 'a', 'A') && letter(
        b[2],
        'n',
        'N',
    ) {
        Some(0)
    } else if m == 3 && inf {
        Some(u64::MAX)
    } else if m == 8 && inf && letter(b[3], 'i', 'I') && letter(b[4], 'n', 'N') && letter(
        b[5],
        'i',
        'I',
    ) && letter(b[6], 't', 'T') && letter(b[7], 'y', 'Y') {
        Some(u64::MAX)
    } else {
        decimal_value(b, multiplier)
    };
    match magnitude {
        Some(v) => Some(
            if negative {
                0
            } else {
                v
            },
        ),
        None => None,
    }
}

} // verus!
