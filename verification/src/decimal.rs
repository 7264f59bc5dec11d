//! Decimal numerals and their exact rounding to doubles.
//!
//! A numeral is a run of integer digits, a run of fraction digits and a
//! signed run of exponent digits. It denotes the rational
//! `digits * 10^exponent`, which is handed to the rounding of ratios as a
//! numerator and a denominator.

use crate::natural::{Natural, Order};
use crate::number::{
    lemma_next_magnitude, lemma_rounding_is_unique, magnitude, nearest, round_ratio, rounds_to,
    scale, significand, INFINITY_BITS,
};
use vstd::arithmetic::power2::*;
use vstd::prelude::*;

verus! {

/// An ASCII decimal digit.
pub open spec fn is_digit(c: char) -> bool {
    '0' <= c && c <= '9'
}

/// Every character is a decimal digit.
pub open spec fn all_digits(s: Seq<char>) -> bool {
    forall|i: int| 0 <= i < s.len() ==> is_digit(#[trigger] s[i])
}

/// What a digit counts for.
pub open spec fn digit_value(c: char) -> nat {
    (c as u32 - '0' as u32) as nat
}

/// The natural number that a run of digits writes, most significant first.
pub open spec fn digits_value(s: Seq<char>) -> nat
    decreases s.len(),
{
    if s.len() == 0 {
        0
    } else {
        digits_value(s.drop_last()) * 10 + digit_value(s.last())
    }
}

/// Ten to the power `n`.
pub open spec fn pow10(n: nat) -> nat
    decreases n,
{
    if n == 0 {
        1
    } else {
        10 * pow10((n - 1) as nat)
    }
}

/// The power of ten that scales the digits of a numeral: its written
/// exponent, less one for each fraction digit.
pub open spec fn decimal_exponent(
    fraction_len: nat,
    exponent_negative: bool,
    exponent: Seq<char>,
) -> int {
    if exponent_negative {
        -(digits_value(exponent) as int) - fraction_len
    } else {
        digits_value(exponent) as int - fraction_len
    }
}

/// The numerator of `digits * 10^e` as a ratio of naturals.
pub open spec fn decimal_numerator(digits: Seq<char>, e: int) -> nat {
    digits_value(digits) * pow10(
        if e > 0 {
            e as nat
        } else {
            0
        },
    )
}

/// The denominator of `digits * 10^e` as a ratio of naturals.
pub open spec fn decimal_denominator(e: int) -> nat {
    pow10(
        if e < 0 {
            (-e) as nat
        } else {
            0
        },
    )
}

/// The sign-free bits of the double nearest to the numeral with the given
/// parts; `INFINITY_BITS` where the numeral is too large.
pub open spec fn decimal_bits(
    integer: Seq<char>,
    fraction: Seq<char>,
    exponent_negative: bool,
    exponent: Seq<char>,
) -> u64 {
    let e = decimal_exponent(fraction.len(), exponent_negative, exponent);
    nearest(decimal_numerator(integer + fraction, e), decimal_denominator(e))
}

/// One more digit multiplies by ten and adds the digit.
pub proof fn lemma_digits_push(s: Seq<char>, c: char)
    ensures
        digits_value(s.push(c)) == digits_value(s) * 10 + digit_value(c),
{
    assert(s.push(c).drop_last() == s);
}

/// A run of `n` digits writes a number below `10^n`.
pub proof fn lemma_digits_bound(s: Seq<char>)
    requires
        all_digits(s),
    ensures
        digits_value(s) < pow10(s.len()),
    decreases s.len(),
{
    if s.len() > 0 {
        assert(is_digit(s[s.len() - 1]));
        assert(all_digits(s.drop_last())) by {
            assert forall|i: int| 0 <= i < s.drop_last().len() implies is_digit(
                #[trigger] s.drop_last()[i],
            ) by {
                assert(s.drop_last()[i] == s[i]);
            }
        }
        lemma_digits_bound(s.drop_last());
    }
}

/// Powers of ten multiply by adding exponents, and are positive.
pub proof fn lemma_pow10_adds(a: nat, b: nat)
    ensures
        pow10(a + b) == pow10(a) * pow10(b),
        pow10(a) > 0,
    decreases a,
{
    if a == 0 {
        assert(pow10(0) * pow10(b) == pow10(b)) by (nonlinear_arith)
            requires
                pow10(0) == 1,
        ;
    } else {
        lemma_pow10_adds((a - 1) as nat, b);
        let x = pow10((a - 1) as nat);
        let y = pow10(b);
        assert(pow10(a + b) == 10 * pow10((a - 1 + b) as nat));
        assert(10 * (x * y) == (10 * x) * y) by (nonlinear_arith);
    }
}

/// Ten to the `n` is at least two to the `3 n`.
pub proof fn lemma_pow10_above_pow2(n: nat)
    ensures
        pow10(n) >= pow2(3 * n),
    decreases n,
{
    lemma2_to64();
    if n > 0 {
        lemma_pow10_above_pow2((n - 1) as nat);
        lemma_pow2_adds(3 * ((n - 1) as nat), 3);
        assert(3 * ((n - 1) as nat) + 3 == 3 * n);
    }
}

/// Ten to the `n` is at least two to the `e`, where `e <= 3 n`.
proof fn lemma_pow10_reaches(n: nat, e: nat)
    requires
        e <= 3 * n,
    ensures
        pow10(n) >= pow2(e),
{
    lemma_pow10_above_pow2(n);
    if e < 3 * n {
        lemma_pow2_strictly_increases(e, 3 * n);
    }
}

/// What a ratio rounds to is its nearest double.
pub proof fn lemma_nearest_is(num: nat, den: nat, m: u64)
    requires
        den > 0,
        rounds_to(num, den, m),
    ensures
        nearest(num, den) == m,
{
    lemma_rounding_is_unique(num, den, m, nearest(num, den));
}

/// A numeral whose digits are all zero denotes zero.
proof fn lemma_zero_rounds_to_zero(den: nat)
    ensures
        rounds_to(0, den, 0),
{
    assert(0 * pow2(1074) == 0) by (nonlinear_arith);
}

/// A nonzero numeral scaled by `10^342` or more is out of range.
proof fn lemma_huge_rounds_to_infinity(d: nat, e: nat)
    requires
        d >= 1,
        e >= 342,
    ensures
        rounds_to(d * pow10(e), 1, INFINITY_BITS),
{
    let num = d * pow10(e);
    let top = magnitude(INFINITY_BITS);
    let last = magnitude((INFINITY_BITS - 1) as u64);
    lemma_next_magnitude((INFINITY_BITS - 1) as u64);
    lemma2_to64_rest();
    lemma_pow10_reaches(e, 1024);
    lemma_pow2_adds(52, 2046);
    lemma_pow2_adds(1024, 1074);
    assert(significand(INFINITY_BITS) == 0x10_0000_0000_0000);
    assert(scale(INFINITY_BITS) == 2046);
    assert(top == pow2(2098));
    let p = pow10(e);
    let q = pow2(1074);
    assert(num * q >= pow2(1024) * q) by (nonlinear_arith)
        requires
            num == d * p,
            d >= 1,
            p >= pow2(1024),
    ;
    assert((last + top) * 1 <= 2 * (num * q)) by (nonlinear_arith)
        requires
            last < top,
            top <= num * q,
    ;
}

/// A numeral of `n` digits scaled down by `10^(n + 359)` or more rounds to
/// zero.
proof fn lemma_tiny_rounds_to_zero(d: nat, n: nat, k: nat)
    requires
        d < pow10(n),
        k >= n + 359,
    ensures
        rounds_to(d, pow10(k), 0),
{
    let den = pow10(k);
    let rest = (k - n) as nat;
    lemma_pow10_adds(n, rest);
    lemma_pow10_reaches(rest, 1075);
    lemma_pow2_unfold(1075);
    lemma_pow2_pos(1074);
    lemma2_to64();
    assert(magnitude(0) == 0) by {
        assert(significand(0) == 0);
        assert(0 * pow2(scale(0)) == 0) by (nonlinear_arith);
    }
    assert(magnitude(1) == 1) by {
        assert(significand(1) == 1);
        assert(scale(1) == 0);
        assert(1 * pow2(0) == 1) by (nonlinear_arith)
            requires
                pow2(0) == 1,
        ;
    }
    let q = pow2(1074);
    let a = pow10(n);
    let b = pow10(rest);
    assert(2 * (d * q) <= a * b) by (nonlinear_arith)
        requires
            d < a,
            b >= 2 * q,
            q > 0,
    {
        assert(2 * (d * q) == d * (2 * q));
        assert(d * (2 * q) <= a * (2 * q));
        assert(a * (2 * q) <= a * b);
    }
    assert((0 + 1) * den == den) by (nonlinear_arith);
}

/// The largest written exponent that is told apart from larger ones.
pub const EXPONENT_CAP: u128 = 1_000_000_000_000_000_000_000_000;

/// The digits of `text` from `start` to `end`, appended to a number.
fn read_digits(
    text: &Vec<char>,
    start: usize,
    end: usize,
    acc: Natural,
    Ghost(prefix): Ghost<Seq<char>>,
) -> (r: Natural)
    requires
        start <= end <= text.len(),
        all_digits(text@.subrange(start as int, end as int)),
        acc.value() == digits_value(prefix),
    ensures
        r.value() == digits_value(prefix + text@.subrange(start as int, end as int)),
{
    let mut r = acc;
    let mut i: usize = start;
    assert(prefix + text@.subrange(start as int, start as int) == prefix);
    while i < end
        invariant
            start <= i <= end <= text.len(),
            all_digits(text@.subrange(start as int, end as int)),
            r.value() == digits_value(prefix + text@.subrange(start as int, i as int)),
        decreases end - i,
    {
        let c = text[i];
        assert(is_digit(c)) by {
            assert(text@.subrange(start as int, end as int)[i - start] == c);
        }
        let d: u64 = (c as u32 - '0' as u32) as u64;
        proof {
            let before = prefix + text@.subrange(start as int, i as int);
            lemma_digits_push(before, c);
            assert(prefix + text@.subrange(start as int, i + 1) == before.push(c));
        }
        r = r.mul_add(10, d);
        i += 1;
    }
    r
}

/// The number that the digits of `text` from `start` to `end` write, or
/// `EXPONENT_CAP` if that is smaller.
fn read_capped(text: &Vec<char>, start: usize, end: usize) -> (r: u128)
    requires
        start <= end <= text.len(),
        all_digits(text@.subrange(start as int, end as int)),
    ensures
        r <= EXPONENT_CAP,
        r < EXPONENT_CAP ==> r == digits_value(text@.subrange(start as int, end as int)),
        r == EXPONENT_CAP ==> digits_value(text@.subrange(start as int, end as int))
            >= EXPONENT_CAP,
{
    let mut r: u128 = 0;
    let mut i: usize = start;
    assert(text@.subrange(start as int, start as int) == Seq::<char>::empty());
    while i < end
        invariant
            start <= i <= end <= text.len(),
            all_digits(text@.subrange(start as int, end as int)),
            r <= EXPONENT_CAP,
            r < EXPONENT_CAP ==> r == digits_value(text@.subrange(start as int, i as int)),
            r == EXPONENT_CAP ==> digits_value(text@.subrange(start as int, i as int))
                >= EXPONENT_CAP,
        decreases end - i,
    {
        let c = text[i];
        assert(is_digit(c)) by {
            assert(text@.subrange(start as int, end as int)[i - start] == c);
        }
        let d: u128 = (c as u32 - '0' as u32) as u128;
        proof {
            let before = text@.subrange(start as int, i as int);
            lemma_digits_push(before, c);
            assert(text@.subrange(start as int, i + 1) == before.push(c));
        }
        let next: u128 = r * 10 + d;
        r = if next < EXPONENT_CAP {
            next
        } else {
            EXPONENT_CAP
        };
        i += 1;
    }
    r
}

/// `x * 10^k`.
fn times_pow10(x: Natural, k: u128) -> (r: Natural)
    ensures
        r.value() == x.value() * pow10(k as nat),
{
    let ghost v = x.value();
    let mut r = x;
    let mut i: u128 = 0;
    assert(v * pow10(0) == v) by (nonlinear_arith)
        requires
            pow10(0) == 1,
    ;
    while i < k
        invariant
            i <= k,
            r.value() == v * pow10(i as nat),
        decreases k - i,
    {
        proof {
            let p = pow10(i as nat);
            assert(v * p * 10 + 0 == v * (10 * p)) by (nonlinear_arith);
        }
        r = r.mul_add(10, 0);
        i += 1;
    }
    r
}

/// Rounds the numeral whose integer, fraction and exponent digits stand in
/// `text` at the given ranges to the nearest double, ties to even. The
/// result is a sign-free bit pattern; `INFINITY_BITS` says that the numeral
/// is too large for a finite double.
pub fn round_decimal(
    text: &Vec<char>,
    integer: (usize, usize),
    fraction: (usize, usize),
    exponent_negative: bool,
    exponent: (usize, usize),
) -> (m: u64)
    requires
        integer.0 <= integer.1 <= text.len(),
        fraction.0 <= fraction.1 <= text.len(),
        exponent.0 <= exponent.1 <= text.len(),
        all_digits(text@.subrange(integer.0 as int, integer.1 as int)),
        all_digits(text@.subrange(fraction.0 as int, fraction.1 as int)),
        all_digits(text@.subrange(exponent.0 as int, exponent.1 as int)),
    ensures
        m <= INFINITY_BITS,
        m == decimal_bits(
            text@.subrange(integer.0 as int, integer.1 as int),
            text@.subrange(fraction.0 as int, fraction.1 as int),
            exponent_negative,
            text@.subrange(exponent.0 as int, exponent.1 as int),
        ),
{
    let ghost int_digits = text@.subrange(integer.0 as int, integer.1 as int);
    let ghost frac_digits = text@.subrange(fraction.0 as int, fraction.1 as int);
    let ghost exp_digits = text@.subrange(exponent.0 as int, exponent.1 as int);
    let ghost digits = int_digits + frac_digits;
    let ghost e_true = decimal_exponent(frac_digits.len(), exponent_negative, exp_digits);
    let ghost num = decimal_numerator(digits, e_true);
    let ghost den = decimal_denominator(e_true);
    proof {
        lemma_pow10_adds(
            if e_true < 0 {
                (-e_true) as nat
            } else {
                0
            },
            0,
        );
        assert(Seq::<char>::empty() + int_digits == int_digits);
        assert(digits_value(Seq::<char>::empty()) == 0);
        assert(all_digits(digits)) by {
            assert forall|i: int| 0 <= i < digits.len() implies is_digit(#[trigger] digits[i]) by {
                if i < int_digits.len() {
                    assert(digits[i] == int_digits[i]);
                } else {
                    assert(digits[i] == frac_digits[i - int_digits.len()]);
                }
            }
        }
        lemma_digits_bound(digits);
    }
    let whole = read_digits(
        text,
        integer.0,
        integer.1,
        Natural::from_u64(0),
        Ghost(Seq::<char>::empty()),
    );
    let all = read_digits(text, fraction.0, fraction.1, whole, Ghost(int_digits));
    let written = read_capped(text, exponent.0, exponent.1);
    let fraction_len: u128 = (fraction.1 - fraction.0) as u128;
    let count: u128 = (integer.1 - integer.0) as u128 + fraction_len;
    let zero = Natural::from_u64(0);
    let m = match all.compare(&zero) {
        Order::Same => {
            proof {
                assert(num == 0) by (nonlinear_arith)
                    requires
                        num == digits_value(digits) * pow10(
                            if e_true > 0 {
                                e_true as nat
                            } else {
                                0
                            },
                        ),
                        digits_value(digits) == 0,
                ;
                lemma_zero_rounds_to_zero(den);
            }
            0
        },
        _ => {
            if !exponent_negative && written > fraction_len + 400 {
                proof {
                    assert(e_true >= 342);
                    assert(den == 1);
                    lemma_huge_rounds_to_infinity(digits_value(digits), e_true as nat);
                }
                INFINITY_BITS
            } else if exponent_negative && written + fraction_len > count + 400 {
                proof {
                    assert(-e_true >= count + 359);
                    assert(num == digits_value(digits)) by (nonlinear_arith)
                        requires
                            num == digits_value(digits) * pow10(0),
                            pow10(0) == 1,
                    ;
                    lemma_tiny_rounds_to_zero(
                        digits_value(digits),
                        digits.len(),
                        (-e_true) as nat,
                    );
                }
                0
            } else {
                assert(written < EXPONENT_CAP);
                let (up, down): (u128, u128) = if exponent_negative {
                    (0, written + fraction_len)
                } else if written >= fraction_len {
                    (written - fraction_len, 0)
                } else {
                    (0, fraction_len - written)
                };
                assert(up == if e_true > 0 {
                    e_true as nat
                } else {
                    0
                });
                assert(down == if e_true < 0 {
                    (-e_true) as nat
                } else {
                    0
                });
                let top = times_pow10(all, up);
                let bottom = times_pow10(Natural::from_u64(1), down);
                assert(bottom.value() == den) by (nonlinear_arith)
                    requires
                        bottom.value() == 1 * pow10(down as nat),
                        den == pow10(down as nat),
                ;
                round_ratio(&top, &bottom)
            }
        },
    };
    proof {
        lemma_nearest_is(num, den, m);
    }
    m
}

} // verus!
