//! Rounding to 53 significant bits.
//!
//! A positive fraction is brought, by a power of two, to a number of 53
//! binary digits before the point; that number is rounded to the nearest
//! whole number, a tie to the even one; and the power of two is undone.
//! What comes out is the fraction as a binary format with 53 significant
//! bits holds it. This module says what the whole part of that is.

use vstd::arithmetic::div_mod::{
    lemma_div_denominator, lemma_div_multiples_vanish_quotient,
    lemma_fundamental_div_mod_converse,
};
use vstd::prelude::*;

verus! {

/// Two to the `n`.
pub open spec fn pow2(n: nat) -> nat
    decreases n,
{
    if n == 0 {
        1
    } else {
        2 * pow2((n - 1) as nat)
    }
}

/// The number of binary digits of `n`: none for zero.
pub open spec fn bit_length(n: nat) -> nat
    decreases n,
{
    if n == 0 {
        0
    } else {
        1 + bit_length(n / 2)
    }
}

/// How often a fraction below one is doubled until it is one or more.
pub open spec fn doublings(numerator: nat, denominator: nat) -> nat
    decreases
        if numerator < denominator {
            denominator - numerator
        } else {
            0
        },
{
    if 0 < numerator < denominator {
        1 + doublings(2 * numerator, denominator)
    } else {
        0
    }
}

/// The integer nearest to `numerator / denominator`; of two that are
/// equally near, the even one.
pub open spec fn round_half_even(numerator: nat, denominator: nat) -> nat {
    let q = numerator / denominator;
    let r = numerator % denominator;
    if 2 * r > denominator || (2 * r == denominator && q % 2 == 1) {
        q + 1
    } else {
        q
    }
}

/// The power of two that brings a positive fraction to 53 binary digits
/// before the point; negative where the fraction has more already.
pub open spec fn significand_shift(numerator: nat, denominator: nat) -> int {
    if numerator >= denominator {
        53 - bit_length(numerator / denominator)
    } else {
        52 + doublings(numerator, denominator) as int
    }
}

/// The 53 binary digits to which a positive fraction is rounded, as a
/// number; two to the 53rd where rounding carries into a 54th digit.
pub open spec fn significand(numerator: nat, denominator: nat) -> nat {
    let shift = significand_shift(numerator, denominator);
    if shift >= 0 {
        round_half_even(numerator * pow2(shift as nat), denominator)
    } else {
        round_half_even(numerator, denominator * pow2((-shift) as nat))
    }
}

/// The whole part of `x * 2^e`.
pub open spec fn shifted_floor(x: nat, e: int) -> nat {
    if e >= 0 {
        x * pow2(e as nat)
    } else {
        x / pow2((-e) as nat)
    }
}

/// The whole part of `numerator / denominator` after it is rounded to 53
/// significant bits, a tie to the even side.
pub open spec fn rounded_floor(numerator: nat, denominator: nat) -> nat {
    if numerator == 0 {
        0
    } else {
        shifted_floor(
            significand(numerator, denominator),
            -significand_shift(numerator, denominator),
        )
    }
}

/// A power of two is at least one.
pub proof fn lemma_pow2_positive(n: nat)
    ensures
        pow2(n) >= 1,
    decreases n,
{
    if n > 0 {
        lemma_pow2_positive((n - 1) as nat);
    }
}

/// Two to a sum is the product of the powers.
pub proof fn lemma_pow2_add(a: nat, b: nat)
    ensures
        pow2(a + b) == pow2(a) * pow2(b),
    decreases b,
{
    if b == 0 {
        assert(pow2(a) * 1 == pow2(a));
    } else {
        lemma_pow2_add(a, (b - 1) as nat);
        assert(pow2(a + b) == 2 * pow2((a + b - 1) as nat));
        assert(2 * (pow2(a) * pow2((b - 1) as nat)) == pow2(a) * (2 * pow2((b - 1) as nat)))
            by (nonlinear_arith);
    }
}

/// A larger exponent gives no smaller power.
pub proof fn lemma_pow2_monotonic(a: nat, b: nat)
    requires
        a <= b,
    ensures
        pow2(a) <= pow2(b),
{
    lemma_pow2_add(a, (b - a) as nat);
    lemma_pow2_positive((b - a) as nat);
    lemma_pow2_positive(a);
    assert(pow2(a) * 1 <= pow2(a) * pow2((b - a) as nat)) by (nonlinear_arith)
        requires
            pow2((b - a) as nat) >= 1,
            pow2(a) >= 1,
    ;
}

/// Two to less than 127 fits in 128 bits with one bit to spare.
pub proof fn lemma_pow2_below(a: nat)
    requires
        a <= 126,
    ensures
        pow2(a) <= 0x4000_0000_0000_0000_0000_0000_0000_0000,
{
    lemma_pow2_values();
    lemma_pow2_add(64, 62);
    lemma_pow2_add(60, 2);
    assert(pow2(2) == 4) by {
        reveal_with_fuel(pow2, 3);
    }
    assert(pow2(62) == 0x4000_0000_0000_0000);
    assert(pow2(126) == 0x4000_0000_0000_0000_0000_0000_0000_0000) by (nonlinear_arith)
        requires
            pow2(126) == pow2(64) * pow2(62),
            pow2(64) == 0x1_0000_0000_0000_0000,
            pow2(62) == 0x4000_0000_0000_0000,
    ;
    lemma_pow2_monotonic(a, 126);
}

/// The powers of two that the rounding meets.
pub proof fn lemma_pow2_values()
    ensures
        pow2(1) == 2,
        pow2(52) == 0x10_0000_0000_0000,
        pow2(53) == 0x20_0000_0000_0000,
        pow2(54) == 0x40_0000_0000_0000,
        pow2(60) == 0x1000_0000_0000_0000,
        pow2(64) == 0x1_0000_0000_0000_0000,
{
    assert(pow2(1) == 2 && pow2(2) == 4 && pow2(3) == 8 && pow2(4) == 16 && pow2(10) == 1024) by {
        reveal_with_fuel(pow2, 11);
    }
    lemma_pow2_add(10, 10);
    assert(pow2(20) == 0x10_0000) by (nonlinear_arith)
        requires
            pow2(20) == pow2(10) * pow2(10),
            pow2(10) == 1024,
    ;
    lemma_pow2_add(20, 20);
    assert(pow2(40) == 0x100_0000_0000) by (nonlinear_arith)
        requires
            pow2(40) == pow2(20) * pow2(20),
            pow2(20) == 0x10_0000,
    ;
    lemma_pow2_add(40, 10);
    assert(pow2(50) == 0x4_0000_0000_0000) by (nonlinear_arith)
        requires
            pow2(50) == pow2(40) * pow2(10),
            pow2(40) == 0x100_0000_0000,
            pow2(10) == 1024,
    ;
    lemma_pow2_add(50, 2);
    assert(pow2(52) == 0x10_0000_0000_0000) by (nonlinear_arith)
        requires
            pow2(52) == pow2(50) * pow2(2),
            pow2(50) == 0x4_0000_0000_0000,
            pow2(2) == 4,
    ;
    assert(pow2(53) == 2 * pow2(52));
    assert(pow2(54) == 2 * pow2(53));
    lemma_pow2_add(50, 10);
    assert(pow2(60) == 0x1000_0000_0000_0000) by (nonlinear_arith)
        requires
            pow2(60) == pow2(50) * pow2(10),
            pow2(50) == 0x4_0000_0000_0000,
            pow2(10) == 1024,
    ;
    lemma_pow2_add(60, 4);
    assert(pow2(64) == 0x1_0000_0000_0000_0000) by (nonlinear_arith)
        requires
            pow2(64) == pow2(60) * pow2(4),
            pow2(60) == 0x1000_0000_0000_0000,
            pow2(4) == 16,
    ;
}

/// A positive number lies between the powers of two that its binary
/// digits give.
pub proof fn lemma_bit_length(n: nat)
    requires
        n >= 1,
    ensures
        bit_length(n) >= 1,
        pow2((bit_length(n) - 1) as nat) <= n < pow2(bit_length(n)),
    decreases n,
{
    if n >= 2 {
        lemma_bit_length(n / 2);
    } else {
        reveal_with_fuel(bit_length, 2);
        assert(pow2(0) == 1 && pow2(1) == 2) by {
            reveal_with_fuel(pow2, 2);
        }
    }
}

/// A number between two neighbouring powers of two has as many binary
/// digits as the larger power's exponent.
pub proof fn lemma_bit_length_unique(n: nat, bits: nat)
    requires
        bits >= 1,
        pow2((bits - 1) as nat) <= n < pow2(bits),
    ensures
        bit_length(n) == bits,
{
    lemma_pow2_positive((bits - 1) as nat);
    lemma_bit_length(n);
    let b = bit_length(n);
    if b < bits {
        lemma_pow2_monotonic(b, (bits - 1) as nat);
    } else if b > bits {
        lemma_pow2_monotonic(bits, (b - 1) as nat);
    }
}

/// A fraction below one is doubled until it is one or more, and not once
/// more than that takes.
pub proof fn lemma_doublings(numerator: nat, denominator: nat)
    requires
        0 < numerator < denominator,
    ensures
        doublings(numerator, denominator) >= 1,
        numerator * pow2(doublings(numerator, denominator)) >= denominator,
        numerator * pow2((doublings(numerator, denominator) - 1) as nat) < denominator,
    decreases
        if numerator < denominator {
            denominator - numerator
        } else {
            0
        },
{
    let i = doublings(numerator, denominator);
    if 2 * numerator < denominator {
        lemma_doublings(2 * numerator, denominator);
        let rest = doublings(2 * numerator, denominator);
        assert(i == 1 + rest);
        assert(pow2(i) == 2 * pow2(rest));
        assert(pow2((i - 1) as nat) == 2 * pow2((rest - 1) as nat));
        assert(numerator * (2 * pow2(rest)) == (2 * numerator) * pow2(rest)) by (nonlinear_arith);
        assert(numerator * (2 * pow2((rest - 1) as nat)) == (2 * numerator) * pow2(
            (rest - 1) as nat,
        )) by (nonlinear_arith);
    } else {
        assert(doublings(2 * numerator, denominator) == 0);
        assert(i == 1);
        assert(pow2(1) == 2 && pow2(0) == 1) by {
            reveal_with_fuel(pow2, 2);
        }
        assert(numerator * 2 >= denominator);
        assert(numerator * 1 < denominator);
    }
}

/// What is divided is the quotient times the divisor, plus a remainder
/// below the divisor, in one way only.
proof fn lemma_division(x: int, d: int, q: int, r: int)
    requires
        d > 0,
        0 <= r < d,
        x == q * d + r,
    ensures
        x / d == q,
        x % d == r,
{
    lemma_fundamental_div_mod_converse(x, d, q, r);
}

/// Rounding a fraction that is divided by a power of two, read off twice
/// the fraction: the bits that the division drops decide, together with
/// whether twice the fraction is a whole number.
pub proof fn lemma_round_large(n: nat, d: nat, t: nat)
    requires
        d > 0,
    ensures
        ({
            let twice = (2 * n) / d;
            let kept = twice / pow2(t + 1);
            let dropped = twice % pow2(t + 1);
            let whole = (2 * n) % d == 0;
            round_half_even(n, d * pow2(t)) == kept + if dropped > pow2(t) || (dropped == pow2(t)
                && (!whole || kept % 2 == 1)) {
                1nat
            } else {
                0nat
            }
        }),
{
    let h = pow2(t) as int;
    lemma_pow2_positive(t);
    assert(pow2(t + 1) == 2 * h);
    let dd = d as int;
    let den = dd * h;
    assert(den > 0) by (nonlinear_arith)
        requires
            dd > 0,
            h > 0,
            den == dd * h,
    ;
    let q = (n as int) / den;
    let r = (n as int) % den;
    vstd::arithmetic::div_mod::lemma_fundamental_div_mod(n as int, den);
    assert(0 <= r < den) by {
        vstd::arithmetic::div_mod::lemma_mod_pos_bound(n as int, den);
    }
    let l = (2 * r) / dd;
    let s = (2 * r) % dd;
    vstd::arithmetic::div_mod::lemma_fundamental_div_mod(2 * r, dd);
    assert(0 <= s < dd) by {
        vstd::arithmetic::div_mod::lemma_mod_pos_bound(2 * r, dd);
    }
    assert(2 * r == dd * l + s);
    assert(0 <= l < 2 * h) by (nonlinear_arith)
        requires
            2 * r == dd * l + s,
            0 <= s < dd,
            0 <= r < dd * h,
            dd > 0,
    ;
    // twice the fraction, in whole numbers
    assert(2 * n == (q * (2 * h) + l) * dd + s) by (nonlinear_arith)
        requires
            n == den * q + r,
            den == dd * h,
            2 * r == dd * l + s,
    ;
    lemma_division((2 * n) as int, dd, q * (2 * h) + l, s);
    let twice = (2 * n) as int / dd;
    assert(twice == q * (2 * h) + l);
    lemma_division(twice, 2 * h, q, l);
    // the remainder against half the divisor
    assert(2 * r > den <==> (l > h || (l == h && s > 0))) by (nonlinear_arith)
        requires
            2 * r == dd * l + s,
            0 <= s < dd,
            den == dd * h,
    ;
    assert(2 * r == den <==> (l == h && s == 0)) by (nonlinear_arith)
        requires
            2 * r == dd * l + s,
            0 <= s < dd,
            den == dd * h,
    ;
    assert(d * pow2(t) == den);
}

/// Rounding a fraction that is multiplied by a power of two, and dividing
/// again: the whole part of the fraction comes out, or one more where all
/// the bits behind the point, down to the one that decides the rounding,
/// are set.
pub proof fn lemma_round_small(n: nat, d: nat, j: nat)
    requires
        d > 0,
        j >= 1,
    ensures
        ({
            let behind = ((n * pow2(j + 1)) / d) % pow2(j + 1);
            round_half_even(n * pow2(j), d) / pow2(j) == n / d + if behind == pow2(j + 1) - 1 {
                1nat
            } else {
                0nat
            }
        }),
{
    let h = pow2(j) as int;
    let half = pow2((j - 1) as nat) as int;
    lemma_pow2_positive((j - 1) as nat);
    assert(h == 2 * half);
    assert(pow2(j + 1) == 2 * h);
    let dd = d as int;
    let x = (n * pow2(j)) as int;
    assert(x == h * n) by (nonlinear_arith)
        requires
            x == n * h,
    ;
    let w = (n as int) / dd;
    let f = x / dd;
    let r = x % dd;
    vstd::arithmetic::div_mod::lemma_fundamental_div_mod(x, dd);
    vstd::arithmetic::div_mod::lemma_mod_pos_bound(x, dd);
    assert(x == dd * f + r && 0 <= r < dd);
    // the whole part of the fraction
    assert(f / h == w) by {
        lemma_div_denominator(x, dd, h);
        lemma_div_multiples_vanish_quotient(h, n as int, dd);
        assert(dd * h == h * dd) by (nonlinear_arith);
    }
    let low = f % h;
    vstd::arithmetic::div_mod::lemma_fundamental_div_mod(f, h);
    vstd::arithmetic::div_mod::lemma_mod_pos_bound(f, h);
    assert(f == h * w + low && 0 <= low < h);
    // twice the product
    let g = (2 * r) / dd;
    let s = (2 * r) % dd;
    vstd::arithmetic::div_mod::lemma_fundamental_div_mod(2 * r, dd);
    vstd::arithmetic::div_mod::lemma_mod_pos_bound(2 * r, dd);
    assert(0 <= g <= 1) by (nonlinear_arith)
        requires
            2 * r == dd * g + s,
            0 <= s < dd,
            0 <= r < dd,
    ;
    assert(g == 1 <==> 2 * r >= dd) by (nonlinear_arith)
        requires
            2 * r == dd * g + s,
            0 <= s < dd,
            0 <= g <= 1,
    ;
    let twice = (n * pow2(j + 1)) as int;
    assert(twice == (2 * f + g) * dd + s) by (nonlinear_arith)
        requires
            twice == n * (2 * h),
            x == h * n,
            x == dd * f + r,
            2 * r == dd * g + s,
    ;
    lemma_division(twice, dd, 2 * f + g, s);
    assert(2 * f + g == w * (2 * h) + (2 * low + g)) by (nonlinear_arith)
        requires
            f == h * w + low,
    ;
    lemma_division(2 * f + g, 2 * h, w, 2 * low + g);
    let behind = (twice / dd) % (2 * h);
    assert(behind == 2 * low + g);
    // the rounded product
    let q = round_half_even(n * pow2(j), d) as int;
    assert(f <= q <= f + 1);
    if low == h - 1 {
        assert(f % 2 == 1) by {
            assert(f == (half * w + half - 1) * 2 + 1) by (nonlinear_arith)
                requires
                    f == h * w + low,
                    low == h - 1,
                    h == 2 * half,
            ;
            lemma_division(f, 2, half * w + half - 1, 1);
        }
        if g == 1 {
            assert(q == f + 1);
            assert(q == (w + 1) * h + 0) by (nonlinear_arith)
                requires
                    q == f + 1,
                    f == h * w + low,
                    low == h - 1,
            ;
            lemma_division(q, h, w + 1, 0);
        } else {
            assert(q == f);
            assert(q == w * h + low) by (nonlinear_arith)
                requires
                    q == f,
                    f == h * w + low,
            ;
            lemma_division(q, h, w, low);
        }
    } else {
        assert(q == w * h + (low + (q - f))) by (nonlinear_arith)
            requires
                f == h * w + low,
        ;
        lemma_division(q, h, w, low + (q - f));
    }
}

/// A fraction of 53 binary digits or more before the point is rounded
/// where its 53rd digit stands.
pub proof fn lemma_rounded_floor_large(n: nat, d: nat)
    requires
        d > 0,
        n / d >= pow2(52),
    ensures
        bit_length(n / d) >= 53,
        ({
            let t = (bit_length(n / d) - 53) as nat;
            rounded_floor(n, d) == round_half_even(n, d * pow2(t)) * pow2(t)
        }),
{
    let w = n / d;
    lemma_pow2_positive(52);
    lemma_bit_length(w);
    if bit_length(w) <= 52 {
        lemma_pow2_monotonic(bit_length(w), 52);
    }
    assert(n >= d) by {
        if n < d {
            vstd::arithmetic::div_mod::lemma_basic_div(n as int, d as int);
        }
    }
    let t = (bit_length(w) - 53) as nat;
    if t == 0 {
        assert(pow2(0) == 1);
        assert(n * 1 == n && d * 1 == d) by (nonlinear_arith);
        let q = round_half_even(n, d);
        assert(q / 1 == q && q * 1 == q) by (nonlinear_arith);
    }
}

/// A fraction of 2^64 or more stays so when it is rounded.
pub proof fn lemma_rounded_floor_big(n: nat, d: nat)
    requires
        d > 0,
        n / d >= pow2(64),
    ensures
        rounded_floor(n, d) >= pow2(64),
{
    let w = n / d;
    lemma_pow2_monotonic(52, 64);
    lemma_rounded_floor_large(n, d);
    lemma_bit_length(w);
    if bit_length(w) <= 64 {
        lemma_pow2_monotonic(bit_length(w), 64);
    }
    let t = (bit_length(w) - 53) as nat;
    let h = pow2(t);
    lemma_pow2_positive(t);
    lemma_pow2_add(52, t);
    lemma_pow2_monotonic(64, 52 + t);
    let q = round_half_even(n, d * h);
    assert(q >= n / (d * h));
    assert(n / (d * h) == w / h) by {
        lemma_div_denominator(n as int, d as int, h as int);
    }
    assert(w / h >= pow2(52)) by {
        assert(w >= pow2(52) * h);
        vstd::arithmetic::div_mod::lemma_div_is_ordered((pow2(52) * h) as int, w as int, h as int);
        vstd::arithmetic::div_mod::lemma_div_multiples_vanish(pow2(52) as int, h as int);
        assert(pow2(52) * h == h * pow2(52)) by (nonlinear_arith);
    }
    assert(q * h >= pow2(52) * h) by (nonlinear_arith)
        requires
            q >= pow2(52),
            h >= 1,
    ;
}

/// A fraction below 2^52 is rounded behind the point: its whole part
/// comes out, or one more where the fraction is within half a unit in the
/// last place of the next whole number.
pub proof fn lemma_rounded_floor_small(n: nat, d: nat)
    requires
        d > 0,
        n > 0,
        n / d < pow2(52),
    ensures
        bit_length(n / d) <= 52,
        ({
            let h = (54 - bit_length(n / d)) as nat;
            let behind = ((n * pow2(h)) / d) % pow2(h);
            rounded_floor(n, d) == n / d + if behind == pow2(h) - 1 {
                1nat
            } else {
                0nat
            }
        }),
{
    let w = n / d;
    lemma_pow2_values();
    if w >= 1 {
        lemma_bit_length(w);
        if bit_length(w) >= 53 {
            lemma_pow2_monotonic(52, (bit_length(w) - 1) as nat);
        }
        assert(n >= d) by {
            if n < d {
                vstd::arithmetic::div_mod::lemma_basic_div(n as int, d as int);
            }
        }
        let j = (53 - bit_length(w)) as nat;
        lemma_round_small(n, d, j);
    } else {
        assert(bit_length(0) == 0);
        assert(n < d) by {
            if n >= d {
                vstd::arithmetic::div_mod::lemma_div_non_zero(n as int, d as int);
            }
        }
        lemma_doublings(n, d);
        let i = doublings(n, d);
        let j = 52 + i;
        if i == 1 {
            lemma_round_small(n, d, 53);
        } else {
            // below a half: nothing reaches the next whole number
            lemma_pow2_add(53, (i - 1) as nat);
            lemma_pow2_positive((i - 1) as nat);
            lemma_pow2_monotonic(1, (i - 1) as nat);
            assert(pow2(j) == pow2(53) * pow2((i - 1) as nat));
            assert(2 * n < d) by (nonlinear_arith)
                requires
                    n * pow2((i - 1) as nat) < d,
                    pow2((i - 1) as nat) >= 2,
            ;
            let x = n * pow2(j);
            let a = pow2(53);
            let nb = n * pow2((i - 1) as nat);
            assert(x == nb * a) by (nonlinear_arith)
                requires
                    x == n * (a * pow2((i - 1) as nat)),
                    nb == n * pow2((i - 1) as nat),
            ;
            assert(nb * a < d * a) by (nonlinear_arith)
                requires
                    nb < d,
                    a > 0,
            ;
            assert(x / d < pow2(53)) by {
                vstd::arithmetic::div_mod::lemma_div_by_multiple_is_strongly_ordered(
                    x as int,
                    (d * pow2(53)) as int,
                    pow2(53) as int,
                    d as int,
                );
                vstd::arithmetic::div_mod::lemma_div_multiples_vanish(pow2(53) as int, d as int);
                assert(d * pow2(53) == pow2(53) * d) by (nonlinear_arith);
            }
            let q = round_half_even(x, d);
            assert(q <= pow2(53));
            lemma_pow2_monotonic(54, j);
            assert(q / pow2(j) == 0) by {
                vstd::arithmetic::div_mod::lemma_basic_div(q as int, pow2(j) as int);
            }
            let y = n * pow2(54);
            assert(y < d * pow2(53)) by {
                let a = pow2(53);
                let twice = 2 * n;
                assert(y == twice * a) by (nonlinear_arith)
                    requires
                        y == n * (2 * a),
                        twice == 2 * n,
                ;
                assert(twice * a < d * a) by (nonlinear_arith)
                    requires
                        twice < d,
                        a > 0,
                ;
            }
            assert(y / d < pow2(53)) by {
                vstd::arithmetic::div_mod::lemma_div_by_multiple_is_strongly_ordered(
                    y as int,
                    (d * pow2(53)) as int,
                    pow2(53) as int,
                    d as int,
                );
                vstd::arithmetic::div_mod::lemma_div_multiples_vanish(pow2(53) as int, d as int);
                assert(d * pow2(53) == pow2(53) * d) by (nonlinear_arith);
            }
            assert((y / d) % pow2(54) == y / d) by {
                vstd::arithmetic::div_mod::lemma_small_mod(y / d, pow2(54));
            }
        }
    }
}

/// A fraction below a half is rounded to less than one.
pub proof fn lemma_rounded_floor_tiny(n: nat, d: nat)
    requires
        2 * n < d,
    ensures
        rounded_floor(n, d) == 0,
{
    if n > 0 {
        lemma_pow2_values();
        assert(n / d == 0) by {
            vstd::arithmetic::div_mod::lemma_basic_div(n as int, d as int);
        }
        lemma_rounded_floor_small(n, d);
        assert(bit_length(0) == 0);
        let y = n * pow2(54);
        assert(y < d * pow2(53)) by {
            let a = pow2(53);
            let twice = 2 * n;
            assert(y == twice * a) by (nonlinear_arith)
                requires
                    y == n * (2 * a),
                    twice == 2 * n,
            ;
            assert(twice * a < d * a) by (nonlinear_arith)
                requires
                    twice < d,
                    a > 0,
            ;
        }
        assert(y / d < pow2(53)) by {
            vstd::arithmetic::div_mod::lemma_div_by_multiple_is_strongly_ordered(
                y as int,
                (d * pow2(53)) as int,
                pow2(53) as int,
                d as int,
            );
            vstd::arithmetic::div_mod::lemma_div_multiples_vanish(pow2(53) as int, d as int);
            assert(d * pow2(53) == pow2(53) * d) by (nonlinear_arith);
        }
        assert((y / d) % pow2(54) == y / d) by {
            vstd::arithmetic::div_mod::lemma_small_mod(y / d, pow2(54));
        }
    }
}

/// What rounding makes of a fraction of 53 binary digits or more before
/// the point, read off twice the fraction's whole part and whether twice
/// the fraction is a whole number.
pub open spec fn rounded_from_twice(twice: nat, whole: bool) -> nat {
    let t = (bit_length(twice / 2) - 53) as nat;
    let kept = twice / pow2(t + 1);
    let dropped = twice % pow2(t + 1);
    if dropped > pow2(t) || (dropped == pow2(t) && (!whole || kept % 2 == 1)) {
        (kept + 1) * pow2(t)
    } else {
        kept * pow2(t)
    }
}

/// Rounding a fraction of 53 binary digits or more before the point comes
/// to what `rounded_from_twice` reads off twice the fraction.
pub proof fn lemma_rounded_from_twice(n: nat, d: nat)
    requires
        d > 0,
        n / d >= pow2(52),
    ensures
        ((2 * n) / d) / 2 == n / d,
        rounded_floor(n, d) == rounded_from_twice((2 * n) / d, (2 * n) % d == 0),
{
    assert(((2 * n) / d) / 2 == n / d) by {
        lemma_div_denominator((2 * n) as int, d as int, 2);
        lemma_div_multiples_vanish_quotient(2, n as int, d as int);
        assert(d * 2 == 2 * d);
    }
    lemma_rounded_floor_large(n, d);
    let t = (bit_length(n / d) - 53) as nat;
    lemma_round_large(n, d, t);
    let twice: nat = (2 * n) / d;
    let kept: nat = twice / pow2(t + 1);
    let dropped: nat = twice % pow2(t + 1);
    let whole = (2 * n) % d == 0;
    let rounded = round_half_even(n, d * pow2(t));
    let h = pow2(t);
    lemma_pow2_positive(t + 1);
    vstd::arithmetic::div_mod::lemma_div_pos_is_pos((2 * n) as int, d as int);
    vstd::arithmetic::div_mod::lemma_div_pos_is_pos(twice as int, pow2(t + 1) as int);
    vstd::arithmetic::div_mod::lemma_mod_pos_bound(twice as int, pow2(t + 1) as int);
    if dropped > pow2(t) || (dropped == pow2(t) && (!whole || kept % 2 == 1)) {
        assert(rounded * h == (kept + 1) * h) by (nonlinear_arith)
            requires
                rounded == kept + 1,
        ;
    } else {
        assert(rounded * h == kept * h) by (nonlinear_arith)
            requires
                rounded == kept,
        ;
    }
}

/// A number of 128 bits has 128 binary digits at most.
pub proof fn lemma_bit_length_fits(n: nat)
    requires
        n <= u128::MAX,
    ensures
        bit_length(n) <= 128,
{
    if n >= 1 {
        lemma_pow2_values();
        lemma_pow2_add(64, 64);
        assert(pow2(128) == 0x1_0000_0000_0000_0000_0000_0000_0000_0000) by (nonlinear_arith)
            requires
                pow2(128) == pow2(64) * pow2(64),
                pow2(64) == 0x1_0000_0000_0000_0000,
        ;
        lemma_bit_length(n);
        if bit_length(n) > 128 {
            lemma_pow2_monotonic(128, (bit_length(n) - 1) as nat);
        }
    }
}

/// The number of binary digits of a number.
pub fn bits(w: u128) -> (b: u32)
    ensures
        b == bit_length(w as nat),
        b <= 128,
{
    let mut rest: u128 = w;
    let mut b: u32 = 0;
    proof {
        lemma_bit_length_fits(w as nat);
    }
    while rest > 0
        invariant
            bit_length(w as nat) == b + bit_length(rest as nat),
            b + bit_length(rest as nat) <= 128,
        decreases rest,
    {
        rest = rest / 2;
        b += 1;
    }
    b
}

/// Two to the `n`.
pub fn power_of_two(n: u32) -> (p: u128)
    requires
        n <= 126,
    ensures
        p == pow2(n as nat),
{
    let mut p: u128 = 1;
    let mut i: u32 = 0;
    while i < n
        invariant
            i <= n <= 126,
            p == pow2(i as nat),
        decreases n - i,
    {
        proof {
            lemma_pow2_below(i as nat);
        }
        p = p * 2;
        i += 1;
    }
    p
}

/// The number itself where it fits in 64 bits, the largest 64-bit value
/// where it does not.
pub open spec fn saturated(n: nat) -> u64 {
    if n > u64::MAX {
        u64::MAX
    } else {
        n as u64
    }
}

/// Rounds a fraction whose whole part has from 53 to 64 binary digits,
/// given twice its whole part and whether twice the fraction is a whole
/// number.
pub fn round_twice(twice: u128, whole: bool) -> (r: u128)
    requires
        pow2(53) <= twice < pow2(65),
    ensures
        r == rounded_from_twice(twice as nat, whole),
        r <= pow2(64),
{
    let b = bits(twice / 2);
    proof {
        lemma_pow2_values();
        assert(pow2(65) == 2 * pow2(64));
        let w = (twice / 2) as nat;
        lemma_bit_length(w);
        if b < 53 {
            lemma_pow2_monotonic(b as nat, 52);
        }
        if b > 64 {
            lemma_pow2_monotonic(64, (b - 1) as nat);
        }
    }
    let t: u32 = b - 53;
    let unit = power_of_two(t + 1);
    proof {
        lemma_pow2_positive((t + 1) as nat);
    }
    let kept = twice / unit;
    let dropped = twice % unit;
    let half = unit / 2;
    proof {
        let w = (twice / 2) as nat;
        lemma_pow2_values();
        lemma_pow2_positive(t as nat);
        assert(half == pow2(t as nat));
        // the part that is kept has 53 binary digits
        lemma_pow2_add(b as nat, 1);
        lemma_pow2_add(53, (t + 1) as nat);
        lemma_pow2_add(53, t as nat);
        lemma_pow2_monotonic((53 + t) as nat, 64);
        assert(pow2(1) == 2);
        assert(twice < pow2(53) * unit) by {
            assert(w < pow2(b as nat));
            assert(pow2((b + 1) as nat) == pow2(b as nat) * 2);
            assert(b + 1 == 53 + (t + 1));
        }
        assert(kept < pow2(53)) by {
            vstd::arithmetic::div_mod::lemma_div_by_multiple_is_strongly_ordered(
                twice as int,
                (pow2(53) * unit) as int,
                pow2(53) as int,
                unit as int,
            );
            vstd::arithmetic::div_mod::lemma_div_multiples_vanish(pow2(53) as int, unit as int);
            assert(pow2(53) * unit == unit * pow2(53)) by (nonlinear_arith);
        }
        assert((kept + 1) * half <= pow2(53) * half) by (nonlinear_arith)
            requires
                kept + 1 <= pow2(53),
                half >= 0,
        ;
        assert(kept * half <= (kept + 1) * half) by (nonlinear_arith)
            requires
                half >= 0,
                kept >= 0,
        ;
    }
    if dropped > half || (dropped == half && (!whole || kept % 2 == 1)) {
        (kept + 1) * half
    } else {
        kept * half
    }
}

/// Rounds as `round_twice` does; what does not fit in 64 bits becomes the
/// largest value.
pub fn round_whole(twice: u128, whole: bool) -> (r: u64)
    requires
        pow2(53) <= twice < pow2(65),
    ensures
        r == saturated(rounded_from_twice(twice as nat, whole)),
{
    let rounded = round_twice(twice, whole);
    if rounded > u64::MAX as u128 {
        u64::MAX
    } else {
        rounded as u64
    }
}

/// A whole number of 53 binary digits at most is rounded to itself.
pub proof fn lemma_rounded_whole_number(n: nat)
    requires
        n < pow2(53),
    ensures
        rounded_floor(n, 1) == n,
{
    lemma_pow2_values();
    assert(n / 1 == n);
    assert(n % 1 == 0);
    if n >= pow2(52) {
        lemma_rounded_floor_large(n, 1);
        lemma_bit_length_unique(n, 53);
        assert(pow2(0) == 1);
        let t = (bit_length(n / 1) - 53) as nat;
        assert(t == 0);
        assert(1 * pow2(t) == 1);
        assert(round_half_even(n, 1) == n);
        assert(n * pow2(t) == n);
    } else if n > 0 {
        lemma_rounded_floor_small(n, 1);
        let h = (54 - bit_length(n / 1)) as nat;
        assert(h >= 2);
        lemma_pow2_positive(h);
        lemma_pow2_monotonic(1, h);
        let x = n * pow2(h);
        assert(x / 1 == x);
        assert(x % pow2(h) == 0) by {
            vstd::arithmetic::div_mod::lemma_mod_multiples_basic(n as int, pow2(h) as int);
        }
        assert(((n * pow2(h)) / 1) % pow2(h) == 0);
        assert(pow2(h) - 1 != 0);
    }
}

/// A number of bytes as 53 significant bits hold it.
pub fn hold(n: u64) -> (m: u128)
    ensures
        m == rounded_floor(n as nat, 1),
        m <= pow2(64),
{
    proof {
        lemma_pow2_values();
    }
    if n < 0x20_0000_0000_0000 {
        proof {
            lemma_rounded_whole_number(n as nat);
        }
        n as u128
    } else {
        proof {
            assert(pow2(65) == 2 * pow2(64));
            assert(n as nat / 1 == n);
            lemma_rounded_from_twice(n as nat, 1);
            assert((2 * n) as nat / 1 == 2 * n);
            assert((2 * n) as nat % 1 == 0);
        }
        round_twice(2 * (n as u128), true)
    }
}

} // verus!
