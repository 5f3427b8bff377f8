//! Arithmetic on strings of decimal digits.
//!
//! A number is held as its digits, however many, so that its product with
//! a multiplier and a power of ten is rounded once, from the exact value,
//! and in whole numbers throughout.

use crate::rounding::{
    bits, lemma_pow2_monotonic, lemma_pow2_positive, lemma_pow2_values, lemma_rounded_floor_big,
    lemma_rounded_floor_small, lemma_rounded_floor_tiny, lemma_rounded_from_twice, pow2,
    power_of_two, round_whole, rounded_floor, saturated,
};
use vstd::arithmetic::div_mod::{
    lemma_breakdown, lemma_div_denominator, lemma_hoist_over_denominator,
    lemma_mod_multiples_vanish,
};
use vstd::prelude::*;

verus! {

/// The largest multiplier by which digits are scaled: two to the sixtieth.
pub const MAX_MULTIPLIER: u64 = 0x1000_0000_0000_0000;

/// One more than the largest 64-bit value.
pub const LIMIT: u128 = 0x1_0000_0000_0000_0000;

/// The largest power of ten, up or down, by which digits are scaled: two
/// to the hundredth.
pub const MAX_EXPONENT: i128 = 0x10_0000_0000_0000_0000_0000_0000;

/// The largest factor by which the digits of a fraction are multiplied:
/// two to the 115th.
pub const MAX_FACTOR: u128 = 0x8_0000_0000_0000_0000_0000_0000_0000;

/// One of the ten decimal digits.
pub open spec fn is_digit(c: char) -> bool {
    '0' <= c && c <= '9'
}

/// Every character is a decimal digit.
pub open spec fn all_digits(s: Seq<char>) -> bool {
    forall|i: int| 0 <= i < s.len() ==> is_digit(#[trigger] s[i])
}

/// The number that a digit stands for.
pub open spec fn digit_of(c: char) -> nat {
    if is_digit(c) {
        (c as int - '0' as int) as nat
    } else {
        0
    }
}

/// The number that a string of digits spells, most significant digit first.
pub open spec fn digits_value(s: Seq<char>) -> nat
    decreases s.len(),
{
    if s.len() == 0 {
        0
    } else {
        10 * digits_value(s.drop_last()) + digit_of(s.last())
    }
}

/// Ten to the `n`.
pub open spec fn pow10(n: nat) -> nat
    decreases n,
{
    if n == 0 {
        1
    } else {
        10 * pow10((n - 1) as nat)
    }
}

/// `mantissa * multiplier * 10^exponent` is a fraction; this is the number
/// above its line.
pub open spec fn numerator(mantissa: nat, exponent: int, multiplier: nat) -> nat {
    if exponent >= 0 {
        mantissa * multiplier * pow10(exponent as nat)
    } else {
        mantissa * multiplier
    }
}

/// The number below the line of `mantissa * multiplier * 10^exponent`.
pub open spec fn denominator(exponent: int) -> nat {
    if exponent >= 0 {
        1
    } else {
        pow10((-exponent) as nat)
    }
}

/// `mantissa * multiplier * 10^exponent`, rounded to 53 significant bits
/// and then down to a whole number.
pub open spec fn scaled(mantissa: nat, exponent: int, multiplier: nat) -> nat {
    rounded_floor(numerator(mantissa, exponent, multiplier), denominator(exponent))
}

/// The whole part of a fraction times a factor, where the fraction is
/// given by its digits behind the point and by the number of zeros
/// between the point and them.
pub open spec fn carry_of(fraction: Seq<char>, zeros: nat, factor: nat) -> nat {
    (digits_value(fraction) * factor) / pow10(fraction.len() + zeros)
}

/// The fraction times the factor is a whole number.
pub open spec fn carries_all(fraction: Seq<char>, zeros: nat, factor: nat) -> bool {
    (digits_value(fraction) * factor) % pow10(fraction.len() + zeros) == 0
}

/// A power of ten is at least one.
pub proof fn lemma_pow10_positive(n: nat)
    ensures
        pow10(n) >= 1,
    decreases n,
{
    if n > 0 {
        lemma_pow10_positive((n - 1) as nat);
    }
}

/// Ten to a sum is the product of the powers.
pub proof fn lemma_pow10_add(a: nat, b: nat)
    ensures
        pow10(a + b) == pow10(a) * pow10(b),
    decreases b,
{
    if b == 0 {
        assert(pow10(a) * 1 == pow10(a));
    } else {
        lemma_pow10_add(a, (b - 1) as nat);
        assert(pow10(a + b) == 10 * pow10((a + b - 1) as nat));
        assert(10 * (pow10(a) * pow10((b - 1) as nat)) == pow10(a) * (10 * pow10((b - 1) as nat)))
            by (nonlinear_arith);
    }
}

/// A larger exponent gives no smaller power.
pub proof fn lemma_pow10_monotonic(a: nat, b: nat)
    requires
        a <= b,
    ensures
        pow10(a) <= pow10(b),
{
    lemma_pow10_add(a, (b - a) as nat);
    lemma_pow10_positive((b - a) as nat);
    lemma_pow10_positive(a);
    assert(pow10(a) * 1 <= pow10(a) * pow10((b - a) as nat)) by (nonlinear_arith)
        requires
            pow10((b - a) as nat) >= 1,
            pow10(a) >= 1,
    ;
}

/// Ten to the nineteenth exceeds every multiplier, and ten to the twentieth
/// every 64-bit value.
pub proof fn lemma_pow10_large()
    ensures
        pow10(19) == 10_000_000_000_000_000_000,
        pow10(20) == 100_000_000_000_000_000_000,
        pow10(19) > MAX_MULTIPLIER,
        pow10(20) > u64::MAX,
{
    reveal_with_fuel(pow10, 21);
}

/// The digits of `a` followed by those of `b` spell `a` shifted left past
/// `b`, plus `b`.
pub proof fn lemma_digits_value_concat(a: Seq<char>, b: Seq<char>)
    ensures
        digits_value(a + b) == digits_value(a) * pow10(b.len()) + digits_value(b),
    decreases b.len(),
{
    if b.len() == 0 {
        assert(a + b == a);
        assert(digits_value(a) * 1 == digits_value(a));
    } else {
        lemma_digits_value_concat(a, b.drop_last());
        assert((a + b).drop_last() == a + b.drop_last());
        assert((a + b).last() == b.last());
        let x = digits_value(a);
        let k = pow10(b.drop_last().len());
        assert(pow10(b.len()) == 10 * k);
        assert(10 * (x * k + digits_value(b.drop_last())) == x * (10 * k) + 10 * digits_value(
            b.drop_last(),
        )) by (nonlinear_arith);
    }
}

/// A string of `n` digits spells a number below ten to the `n`.
pub proof fn lemma_digits_value_bound(s: Seq<char>)
    requires
        all_digits(s),
    ensures
        digits_value(s) < pow10(s.len()),
    decreases s.len(),
{
    if s.len() > 0 {
        lemma_digits_value_bound(s.drop_last());
        assert(is_digit(s.last()));
    }
}

/// Scaling by ten to a power of twenty or more leaves nothing that fits in
/// 64 bits but zero.
pub proof fn lemma_scaled_large_exponent(mantissa: nat, exponent: int, multiplier: nat)
    requires
        exponent >= 20,
        multiplier >= 1,
    ensures
        saturated(scaled(mantissa, exponent, multiplier)) == if mantissa == 0 {
            0
        } else {
            u64::MAX
        },
{
    lemma_pow10_large();
    lemma_pow10_monotonic(20, exponent as nat);
    lemma_pow2_values();
    let p = pow10(exponent as nat);
    let n = numerator(mantissa, exponent, multiplier);
    if mantissa == 0 {
        assert(mantissa * multiplier * p == 0) by (nonlinear_arith)
            requires
                mantissa == 0,
        ;
    } else {
        assert(mantissa * multiplier * p >= p) by (nonlinear_arith)
            requires
                mantissa >= 1,
                multiplier >= 1,
                p >= 1,
        ;
        assert(n / 1 == n);
        lemma_rounded_floor_big(n, 1);
    }
}

/// A number of `len` digits, scaled down by more than `len + 19` places,
/// is rounded to zero.
pub proof fn lemma_scaled_small_exponent(
    mantissa: nat,
    len: nat,
    exponent: int,
    multiplier: nat,
)
    requires
        mantissa < pow10(len),
        exponent <= -(len + 19),
        multiplier <= MAX_MULTIPLIER,
    ensures
        scaled(mantissa, exponent, multiplier) == 0,
{
    lemma_pow10_large();
    lemma_pow10_add(len, 19);
    lemma_pow10_monotonic(len + 19, (-exponent) as nat);
    lemma_pow10_positive(len);
    let d = pow10((-exponent) as nat);
    let n = mantissa * multiplier;
    assert(2 * n < pow10(len) * pow10(19)) by (nonlinear_arith)
        requires
            n == mantissa * multiplier,
            mantissa < pow10(len),
            2 * multiplier < pow10(19),
            pow10(len) >= 1,
    ;
    lemma_rounded_floor_tiny(n, d);
}

/// The number that a digit stands for.
pub fn digit(c: char) -> (d: u8)
    requires
        is_digit(c),
    ensures
        d == digit_of(c),
        d <= 9,
{
    (c as u32 - '0' as u32) as u8
}

/// The number that the first `upto` digits spell, or `LIMIT` where that
/// number is `LIMIT` or more.
pub fn read_integer(d: &[char], upto: usize) -> (v: u128)
    requires
        upto <= d@.len(),
        all_digits(d@),
    ensures
        v <= LIMIT,
        digits_value(d@.take(upto as int)) >= LIMIT ==> v == LIMIT,
        digits_value(d@.take(upto as int)) < LIMIT ==> v == digits_value(d@.take(upto as int)),
{
    let mut v: u128 = 0;
    let mut i: usize = 0;
    while i < upto
        invariant
            i <= upto <= d@.len(),
            all_digits(d@),
            v <= LIMIT,
            digits_value(d@.take(i as int)) >= LIMIT ==> v == LIMIT,
            digits_value(d@.take(i as int)) < LIMIT ==> v == digits_value(d@.take(i as int)),
        decreases upto - i,
    {
        let x = digit(d[i]);
        proof {
            let next = d@.take(i as int + 1);
            assert(next.drop_last() == d@.take(i as int));
            assert(next.last() == d@[i as int]);
        }
        v = v * 10 + x as u128;
        if v > LIMIT {
            v = LIMIT;
        }
        i += 1;
    }
    v
}

/// Dividing by ten times a number is dividing by the number and then by
/// ten, and nothing is left over exactly where neither step leaves
/// anything.
proof fn lemma_tenth(y: nat, k: nat)
    requires
        k > 0,
    ensures
        y / (k * 10) == (y / k) / 10,
        (y % (k * 10) == 0) == (y % k == 0 && (y / k) % 10 == 0),
{
    lemma_div_denominator(y as int, k as int, 10);
    lemma_breakdown(y as int, k as int, 10);
    let low = (y as int) % (k as int);
    let high = ((y as int) / (k as int)) % 10;
    vstd::arithmetic::div_mod::lemma_mod_pos_bound(y as int, k as int);
    vstd::arithmetic::div_mod::lemma_div_pos_is_pos(y as int, k as int);
    vstd::arithmetic::div_mod::lemma_mod_pos_bound((y as int) / (k as int), 10);
    assert(k * high + low == 0 <==> (high == 0 && low == 0)) by (nonlinear_arith)
        requires
            k > 0,
            high >= 0,
            low >= 0,
    ;
}

/// One more digit in front of a fraction: its product joins what the
/// fraction carries, and a tenth of the sum is carried on.
proof fn lemma_carry_step(c: char, rest: Seq<char>, factor: nat)
    requires
        is_digit(c),
    ensures
        carry_of(seq![c] + rest, 0, factor) == (digit_of(c) * factor + carry_of(rest, 0, factor))
            / 10,
        carries_all(seq![c] + rest, 0, factor) == (carries_all(rest, 0, factor) && (digit_of(c)
            * factor + carry_of(rest, 0, factor)) % 10 == 0),
{
    let x = digit_of(c);
    let k = pow10(rest.len());
    let r = digits_value(rest);
    lemma_pow10_positive(rest.len());
    lemma_digits_value_concat(seq![c], rest);
    assert(digits_value(seq![c]) == x) by {
        reveal_with_fuel(digits_value, 2);
        assert(seq![c].drop_last() == Seq::<char>::empty());
        assert(seq![c].last() == c);
    }
    let y = (x * k + r) * factor;
    assert(y == r * factor + (x * factor) * k) by (nonlinear_arith)
        requires
            y == (x * k + r) * factor,
    ;
    assert(pow10(rest.len() + 1) == k * 10);
    lemma_tenth(y, k);
    lemma_hoist_over_denominator((r * factor) as int, (x * factor) as int, k);
    assert(y % k == (r * factor) % k) by {
        lemma_mod_multiples_vanish((x * factor) as int, (r * factor) as int, k as int);
        assert(k * (x * factor) + r * factor == y) by (nonlinear_arith)
            requires
                y == r * factor + (x * factor) * k,
        ;
    }
    assert((seq![c] + rest).len() + 0 == rest.len() + 1);
}

/// One more zero between the point and the digits of a fraction: a tenth
/// of what it carried is carried on.
proof fn lemma_carry_zero(fraction: Seq<char>, zeros: nat, factor: nat)
    ensures
        carry_of(fraction, zeros + 1, factor) == carry_of(fraction, zeros, factor) / 10,
        carries_all(fraction, zeros + 1, factor) == (carries_all(fraction, zeros, factor)
            && carry_of(fraction, zeros, factor) % 10 == 0),
{
    let k = pow10(fraction.len() + zeros);
    lemma_pow10_positive(fraction.len() + zeros);
    assert(pow10(fraction.len() + (zeros + 1)) == k * 10);
    lemma_tenth(digits_value(fraction) * factor, k);
}

/// Where a fraction carries nothing, more zeros between the point and its
/// digits change nothing.
proof fn lemma_carry_nothing(fraction: Seq<char>, done: nat, zeros: nat, factor: nat)
    requires
        done <= zeros,
        carry_of(fraction, done, factor) == 0,
    ensures
        carry_of(fraction, zeros, factor) == 0,
        carries_all(fraction, zeros, factor) == carries_all(fraction, done, factor),
{
    let y = digits_value(fraction) * factor;
    let near = pow10(fraction.len() + done);
    let far = pow10(fraction.len() + zeros);
    lemma_pow10_positive(fraction.len() + done);
    lemma_pow10_monotonic(fraction.len() + done, fraction.len() + zeros);
    assert(y < near) by {
        if y >= near {
            vstd::arithmetic::div_mod::lemma_div_non_zero(y as int, near as int);
        }
    }
    vstd::arithmetic::div_mod::lemma_basic_div(y as int, far as int);
    vstd::arithmetic::div_mod::lemma_small_mod(y, far);
    vstd::arithmetic::div_mod::lemma_small_mod(y, near);
}

/// The whole part of a fraction times a factor, and whether the product is
/// a whole number. The fraction is given by its digits from `from` on and
/// by the number of zeros between the point and them.
pub fn fraction_carry(d: &[char], from: usize, zeros: i128, factor: u128) -> (r: (u128, bool))
    requires
        from <= d@.len(),
        all_digits(d@),
        1 <= factor <= MAX_FACTOR,
        0 <= zeros,
    ensures
        r.0 == carry_of(d@.subrange(from as int, d@.len() as int), zeros as nat, factor as nat),
        r.1 == carries_all(
            d@.subrange(from as int, d@.len() as int),
            zeros as nat,
            factor as nat,
        ),
        r.0 < factor,
{
    let n: usize = d.len();
    let mut i: usize = n;
    let mut c: u128 = 0;
    let mut whole = true;
    proof {
        assert(d@.subrange(n as int, n as int) == Seq::<char>::empty());
        assert(0 * factor == 0) by (nonlinear_arith);
        assert(pow10(0) == 1);
    }
    while i > from
        invariant
            from <= i <= n == d@.len(),
            all_digits(d@),
            1 <= factor <= MAX_FACTOR,
            c < factor,
            c == carry_of(d@.subrange(i as int, n as int), 0, factor as nat),
            whole == carries_all(d@.subrange(i as int, n as int), 0, factor as nat),
        decreases i,
    {
        let x = digit(d[i - 1]);
        proof {
            let rest = d@.subrange(i as int, n as int);
            lemma_carry_step(d@[i - 1], rest, factor as nat);
            assert(seq![d@[i - 1]] + rest == d@.subrange(i - 1, n as int));
            assert(x * factor <= 9 * factor) by (nonlinear_arith)
                requires
                    x <= 9,
            ;
        }
        let sum: u128 = x as u128 * factor + c;
        whole = whole && sum % 10 == 0;
        c = sum / 10;
        i -= 1;
    }
    let ghost fraction = d@.subrange(from as int, n as int);
    let mut left: i128 = zeros;
    while left > 0 && c > 0
        invariant
            0 <= left <= zeros,
            c < factor,
            fraction == d@.subrange(from as int, d@.len() as int),
            c == carry_of(fraction, (zeros - left) as nat, factor as nat),
            whole == carries_all(fraction, (zeros - left) as nat, factor as nat),
        decreases left,
    {
        proof {
            lemma_carry_zero(fraction, (zeros - left) as nat, factor as nat);
        }
        whole = whole && c % 10 == 0;
        c = c / 10;
        left -= 1;
    }
    proof {
        if left > 0 {
            lemma_carry_nothing(fraction, (zeros - left) as nat, zeros as nat, factor as nat);
        }
    }
    (c, whole)
}

/// The part before the point of the number that the digits spell, once
/// the point is moved by the exponent.
pub open spec fn whole_part(d: Seq<char>, exponent: int) -> nat {
    if exponent >= 0 {
        digits_value(d) * pow10(exponent as nat)
    } else if -exponent >= d.len() {
        0
    } else {
        digits_value(d.take(d.len() + exponent))
    }
}

/// Where the digits behind the point begin.
pub open spec fn fraction_start(d: Seq<char>, exponent: int) -> int {
    if exponent >= 0 {
        d.len() as int
    } else if -exponent >= d.len() {
        0
    } else {
        d.len() + exponent
    }
}

/// The number of zeros between the point and the digits behind it.
pub open spec fn fraction_zeros(d: Seq<char>, exponent: int) -> nat {
    if exponent < 0 && -exponent >= d.len() {
        (-exponent - d.len()) as nat
    } else {
        0
    }
}

/// The digits behind the point.
pub open spec fn fraction_of(d: Seq<char>, exponent: int) -> Seq<char> {
    d.subrange(fraction_start(d, exponent), d.len() as int)
}

/// A product of the number with a factor, in whole numbers: the part
/// before the point times the factor, and what the part behind carries.
proof fn lemma_split_product(d: Seq<char>, exponent: int, multiplier: nat, scale: nat)
    requires
        all_digits(d),
    ensures
        ({
            let n = numerator(digits_value(d), exponent, multiplier);
            let k = denominator(exponent);
            let f = fraction_of(d, exponent);
            let z = fraction_zeros(d, exponent);
            let factor = multiplier * scale;
            &&& k > 0
            &&& (n * scale) / k == whole_part(d, exponent) * factor + carry_of(f, z, factor)
            &&& ((n * scale) % k == 0) == carries_all(f, z, factor)
        }),
{
    let m = digits_value(d);
    let n = numerator(m, exponent, multiplier);
    let k = denominator(exponent);
    let f = fraction_of(d, exponent);
    let z = fraction_zeros(d, exponent);
    let w = whole_part(d, exponent);
    let v = digits_value(f);
    let factor = multiplier * scale;
    // the number is its whole part, shifted, plus its fraction
    assert(k == pow10(f.len() + z) && k > 0 && n * scale == (w * k + v) * factor) by {
        if exponent >= 0 {
            assert(f == Seq::<char>::empty());
            assert(pow10(0) == 1);
            assert(m * multiplier * pow10(exponent as nat) * scale == (m * pow10(exponent as nat)
                * 1 + 0) * (multiplier * scale)) by (nonlinear_arith);
        } else if -exponent >= d.len() {
            assert(f == d);
            lemma_pow10_positive(f.len() + z);
            assert(m * multiplier * scale == (0 * k + m) * (multiplier * scale))
                by (nonlinear_arith);
        } else {
            let head = d.take(d.len() + exponent);
            assert(head + f == d);
            lemma_digits_value_concat(head, f);
            lemma_pow10_positive(f.len());
            assert((w * k + v) * multiplier * scale == (w * k + v) * (multiplier * scale))
                by (nonlinear_arith);
        }
    }
    let y = v * factor;
    assert((w * k + v) * factor == y + (w * factor) * k) by (nonlinear_arith)
        requires
            y == v * factor,
    ;
    lemma_hoist_over_denominator(y as int, (w * factor) as int, k);
    lemma_mod_multiples_vanish((w * factor) as int, y as int, k as int);
    assert(k * (w * factor) + y == y + (w * factor) * k) by (nonlinear_arith);
}

/// Reads the part before the point, and finds the part behind it.
fn split_digits(d: &[char], exponent: i128) -> (r: (u128, usize, i128))
    requires
        all_digits(d@),
        -MAX_EXPONENT <= exponent <= MAX_EXPONENT,
    ensures
        r.0 <= LIMIT,
        whole_part(d@, exponent as int) >= LIMIT ==> r.0 == LIMIT,
        whole_part(d@, exponent as int) < LIMIT ==> r.0 == whole_part(d@, exponent as int),
        r.1 == fraction_start(d@, exponent as int),
        r.2 == fraction_zeros(d@, exponent as int),
{
    let n: usize = d.len();
    if exponent >= 0 {
        let ghost value = digits_value(d@);
        assert(d@.take(n as int) == d@);
        let mut v = read_integer(d, n);
        let mut i: i128 = 0;
        assert(value * pow10(0) == value) by (nonlinear_arith)
            requires
                pow10(0) == 1,
        ;
        while i < exponent && v != 0 && v < LIMIT
            invariant
                0 <= i <= exponent,
                v <= LIMIT,
                value * pow10(i as nat) >= LIMIT ==> v == LIMIT,
                value * pow10(i as nat) < LIMIT ==> v == value * pow10(i as nat),
            decreases exponent - i,
        {
            assert(value * pow10((i + 1) as nat) == value * pow10(i as nat) * 10)
                by (nonlinear_arith)
                requires
                    pow10((i + 1) as nat) == 10 * pow10(i as nat),
            ;
            v = v * 10;
            if v > LIMIT {
                v = LIMIT;
            }
            i += 1;
        }
        proof {
            let rest = (exponent - i) as nat;
            let so_far = value * pow10(i as nat);
            lemma_pow10_add(i as nat, rest);
            lemma_pow10_positive(rest);
            assert(value * (pow10(i as nat) * pow10(rest)) == so_far * pow10(rest))
                by (nonlinear_arith)
                requires
                    so_far == value * pow10(i as nat),
            ;
            assert(so_far * pow10(rest) >= so_far) by (nonlinear_arith)
                requires
                    pow10(rest) >= 1,
            ;
            if so_far == 0 {
                assert(so_far * pow10(rest) == 0) by (nonlinear_arith)
                    requires
                        so_far == 0,
                ;
            }
            if i == exponent {
                assert(so_far * 1 == so_far);
                assert(pow10(0) == 1);
            }
        }
        (v, n, 0)
    } else {
        let places: i128 = -exponent;
        if places >= n as i128 {
            (0, 0, places - n as i128)
        } else {
            let from: usize = n - places as usize;
            (read_integer(d, from), from, 0)
        }
    }
}

/// Multiplies the number that the digits spell by `multiplier` and by ten
/// to the `exponent`, rounds the product to 53 significant bits and then
/// down to a whole number; what does not fit in 64 bits becomes the
/// largest value.
pub fn scale_digits(d: &[char], exponent: i128, multiplier: u64) -> (r: u64)
    requires
        all_digits(d@),
        1 <= multiplier <= MAX_MULTIPLIER,
        -MAX_EXPONENT <= exponent <= MAX_EXPONENT,
    ensures
        r == saturated(scaled(digits_value(d@), exponent as int, multiplier as nat)),
{
    let ghost n = numerator(digits_value(d@), exponent as int, multiplier as nat);
    let ghost k = denominator(exponent as int);
    let ghost before = whole_part(d@, exponent as int);
    let (whole, from, zeros) = split_digits(d, exponent);
    proof {
        lemma_pow2_values();
        lemma_split_product(d@, exponent as int, multiplier as nat, 1);
        lemma_split_product(d@, exponent as int, multiplier as nat, 2);
        assert(n * 1 == n);
        assert(multiplier * 1 == multiplier);
        assert(n * 2 == 2 * n);
        assert(((2 * n) / k) / 2 == n / k) by {
            lemma_div_denominator((2 * n) as int, k as int, 2);
            vstd::arithmetic::div_mod::lemma_div_multiples_vanish_quotient(2, n as int, k as int);
            assert(k * 2 == 2 * k);
        }
        assert(before * multiplier >= before) by (nonlinear_arith)
            requires
                multiplier >= 1,
        ;
    }
    if whole >= LIMIT {
        proof {
            lemma_rounded_floor_big(n, k);
        }
        return u64::MAX;
    }
    let double: u128 = 2 * (multiplier as u128);
    let (carried, exact) = fraction_carry(d, from, zeros, double);
    assert(whole * double < LIMIT * (2 * MAX_MULTIPLIER)) by (nonlinear_arith)
        requires
            whole < LIMIT,
            double <= 2 * MAX_MULTIPLIER,
    ;
    let twice: u128 = whole * double + carried;
    assert(twice == (2 * n) / k);
    let w: u128 = twice / 2;
    if w >= LIMIT {
        proof {
            lemma_rounded_floor_big(n, k);
        }
        return u64::MAX;
    }
    if w >= 0x10_0000_0000_0000 {
        proof {
            lemma_rounded_from_twice(n, k);
            assert(pow2(65) == 2 * pow2(64));
        }
        return round_whole(twice, exact);
    }
    if twice == 0 && exact {
        proof {
            vstd::arithmetic::div_mod::lemma_fundamental_div_mod((2 * n) as int, k as int);
            assert(n == 0);
        }
        return 0;
    }
    let b = bits(w);
    proof {
        assert(n > 0) by {
            if n == 0 {
                vstd::arithmetic::div_mod::lemma_div_basics_1(k as int);
                assert(0int % (k as int) == 0) by {
                    vstd::arithmetic::div_mod::lemma_small_mod(0, k);
                }
            }
        }
        lemma_rounded_floor_small(n, k);
    }
    let h: u32 = 54 - b;
    let unit = power_of_two(h);
    proof {
        lemma_pow2_positive(h as nat);
        lemma_pow2_monotonic(h as nat, 54);
        lemma_split_product(d@, exponent as int, multiplier as nat, unit as nat);
        assert(1 <= multiplier * unit <= MAX_FACTOR) by (nonlinear_arith)
            requires
                1 <= multiplier <= 0x1000_0000_0000_0000,
                1 <= unit <= 0x40_0000_0000_0000,
                MAX_FACTOR == 0x8_0000_0000_0000_0000_0000_0000_0000,
        ;
    }
    let (shifted, _) = fraction_carry(d, from, zeros, multiplier as u128 * unit);
    proof {
        let factor = (multiplier * unit) as nat;
        lemma_mod_multiples_vanish((before * multiplier) as int, shifted as int, unit as int);
        assert(unit * (before * multiplier) + shifted == before * factor + shifted)
            by (nonlinear_arith)
            requires
                factor == multiplier * unit,
        ;
    }
    if shifted % unit == unit - 1 {
        (w + 1) as u64
    } else {
        w as u64
    }
}

} // verus!
