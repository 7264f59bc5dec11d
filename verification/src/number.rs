//! JSON numbers: IEEE-754 doubles held as their 64 bits, and the exact
//! rounding of a ratio of naturals to the nearest double.
//!
//! Nothing here computes with hardware floating point. A double is a bit
//! pattern; what it denotes is stated over the naturals, in units of
//! `2^-1074`, the smallest positive double.

use crate::natural::{Natural, Order};
use vstd::arithmetic::power2::*;
use vstd::prelude::*;

verus! {

/// The bits of positive infinity: exponent field all ones, fraction zero.
pub const INFINITY_BITS: u64 = 0x7FF0_0000_0000_0000;

/// The sign bit of a double.
pub const SIGN_BIT: u64 = 0x8000_0000_0000_0000;

/// A JSON number: an IEEE-754 double, held as its 64 bits.
#[derive(Debug, Clone, Copy)]
pub struct Number {
    pub bits: u64,
}

/// The low 52 bits of a double.
pub open spec fn fraction_field(bits: u64) -> nat {
    (bits % 0x10_0000_0000_0000) as nat
}

/// The 11 bits above the fraction.
pub open spec fn exponent_field(bits: u64) -> nat {
    (bits / 0x10_0000_0000_0000 % 0x800) as nat
}

/// The bits with the sign cleared.
pub open spec fn magnitude_bits(bits: u64) -> u64 {
    (bits % 0x8000_0000_0000_0000) as u64
}

/// Whether the sign bit is set.
pub open spec fn is_negative(bits: u64) -> bool {
    bits >= 0x8000_0000_0000_0000
}

/// Neither an infinity nor a NaN.
pub open spec fn is_finite(bits: u64) -> bool {
    exponent_field(bits) != 0x7FF
}

/// Not a number: exponent field all ones, fraction not zero.
pub open spec fn is_nan(bits: u64) -> bool {
    exponent_field(bits) == 0x7FF && fraction_field(bits) != 0
}

/// Positive or negative zero.
pub open spec fn is_zero(bits: u64) -> bool {
    magnitude_bits(bits) == 0
}

/// The integer that the binary exponent scales: the fraction, with the
/// implicit leading one for a normal number.
pub open spec fn significand(bits: u64) -> nat {
    if exponent_field(bits) == 0 {
        fraction_field(bits)
    } else {
        fraction_field(bits) + 0x10_0000_0000_0000
    }
}

/// The power of two by which the significand is scaled, counted from
/// `2^-1074`.
pub open spec fn scale(bits: u64) -> nat {
    if exponent_field(bits) == 0 {
        0
    } else {
        (exponent_field(bits) - 1) as nat
    }
}

/// The absolute value that the bits denote, in units of `2^-1074`. For the
/// bits of infinity the same formula gives `2^1024`, the least magnitude
/// that is out of range.
pub open spec fn magnitude(bits: u64) -> nat {
    significand(bits) * pow2(scale(bits))
}

/// Equality of doubles as IEEE-754 defines it: a NaN equals nothing, the two
/// zeros equal each other, anything else equals only itself.
pub open spec fn same_number(a: u64, b: u64) -> bool {
    !is_nan(a) && !is_nan(b) && (a == b || (is_zero(a) && is_zero(b)))
}

/// `m` is what `num / den` rounds to, to nearest with ties to even: the
/// ratio lies between the midpoints from `m` to its two neighbours, and a
/// midpoint itself belongs to the neighbour whose last bit is zero. `m` is a
/// sign-free bit pattern up to that of infinity, which stands for every
/// ratio from the midpoint above the largest finite double upward.
pub open spec fn rounds_to(num: nat, den: nat, m: u64) -> bool {
    let twice = 2 * (num * pow2(1074));
    &&& m <= INFINITY_BITS
    &&& m > 0 ==> {
        let below = (magnitude((m - 1) as u64) + magnitude(m)) * den;
        if m % 2 == 0 {
            below <= twice
        } else {
            below < twice
        }
    }
    &&& m < INFINITY_BITS ==> {
        let above = (magnitude(m) + magnitude((m + 1) as u64)) * den;
        if m % 2 == 0 {
            twice <= above
        } else {
            twice < above
        }
    }
}

/// The sign-free bits of the double nearest to `num / den`.
pub open spec fn nearest(num: nat, den: nat) -> u64 {
    choose|m: u64| rounds_to(num, den, m)
}

/// From one bit pattern to the next, the magnitude grows by one unit in the
/// last place.
pub proof fn lemma_next_magnitude(m: u64)
    requires
        m < INFINITY_BITS,
    ensures
        magnitude((m + 1) as u64) == magnitude(m) + pow2(scale(m)),
        magnitude(m) < magnitude((m + 1) as u64),
{
    let f = fraction_field(m);
    let e = exponent_field(m);
    let n = (m + 1) as u64;
    let s = scale(m);
    lemma_pow2_pos(s);
    lemma2_to64();
    assert(e == m / 0x10_0000_0000_0000);
    if f + 1 < 0x10_0000_0000_0000 {
        assert(fraction_field(n) == f + 1);
        assert(exponent_field(n) == e);
        assert((significand(m) + 1) * pow2(s) == significand(m) * pow2(s) + pow2(s))
            by (nonlinear_arith);
    } else {
        assert(fraction_field(n) == 0);
        assert(exponent_field(n) == e + 1);
        if e == 0 {
            assert(significand(m) == 0xF_FFFF_FFFF_FFFF);
            assert(significand(n) == 0x10_0000_0000_0000);
            assert(scale(n) == 0);
            assert(magnitude(m) == 0xF_FFFF_FFFF_FFFF);
            assert(magnitude(n) == 0x10_0000_0000_0000);
        } else {
            lemma_pow2_unfold(e);
            let p = pow2(s);
            assert(scale(n) == e);
            assert(s == e - 1);
            assert(significand(m) == 0x1F_FFFF_FFFF_FFFF);
            assert(significand(n) == 0x10_0000_0000_0000);
            assert(0x10_0000_0000_0000 * (2 * p) == 0x1F_FFFF_FFFF_FFFF * p + p)
                by (nonlinear_arith);
        }
    }
}

/// A larger bit pattern denotes a larger magnitude.
pub proof fn lemma_magnitude_increases(a: u64, b: u64)
    requires
        a < b <= INFINITY_BITS,
    ensures
        magnitude(a) < magnitude(b),
    decreases b - a,
{
    lemma_next_magnitude((b - 1) as u64);
    if a < b - 1 {
        lemma_magnitude_increases(a, (b - 1) as u64);
    }
}

/// At most one bit pattern is the rounding of a given ratio.
pub proof fn lemma_rounding_is_unique(num: nat, den: nat, a: u64, b: u64)
    requires
        den > 0,
        rounds_to(num, den, a),
        rounds_to(num, den, b),
    ensures
        a == b,
{
    lemma_rounding_not_below(num, den, a, b);
    lemma_rounding_not_below(num, den, b, a);
}

/// Of two roundings of one ratio, the second is not the larger.
proof fn lemma_rounding_not_below(num: nat, den: nat, a: u64, b: u64)
    requires
        den > 0,
        rounds_to(num, den, a),
        rounds_to(num, den, b),
    ensures
        b <= a,
{
    if a < b {
        let above = magnitude(a) + magnitude((a + 1) as u64);
        let below = magnitude((b - 1) as u64) + magnitude(b);
        if a + 1 < b {
            lemma_magnitude_increases((a + 1) as u64, b);
            lemma_magnitude_increases(a, (b - 1) as u64);
            assert(above * den < below * den) by (nonlinear_arith)
                requires
                    above < below,
                    den > 0,
            ;
        }
    }
}

/// `den` times the magnitude of `m`, or, with `halfway`, `den` times the sum
/// of the magnitudes of `m` and of the pattern after it.
fn scaled(den: &Natural, m: u64, halfway: bool) -> (r: Natural)
    requires
        m <= INFINITY_BITS,
        halfway ==> m < INFINITY_BITS,
    ensures
        r.value() == if halfway {
            (magnitude(m) + magnitude((m + 1) as u64)) * den.value()
        } else {
            magnitude(m) * den.value()
        },
{
    let fraction: u64 = m % 0x10_0000_0000_0000;
    let exponent: u64 = m / 0x10_0000_0000_0000;
    let sig: u64 = if exponent == 0 {
        fraction
    } else {
        fraction + 0x10_0000_0000_0000
    };
    let shift: u32 = if exponent == 0 {
        0
    } else {
        (exponent - 1) as u32
    };
    let factor: u64 = if halfway {
        2 * sig + 1
    } else {
        sig
    };
    let r = den.mul_add(factor, 0).mul_pow2(shift);
    proof {
        let d = den.value();
        let p = pow2(shift as nat);
        assert(sig == significand(m));
        assert(shift == scale(m));
        if halfway {
            lemma_next_magnitude(m);
            assert(d * (2 * sig + 1) * p == (sig * p + (sig * p + p)) * d) by (nonlinear_arith);
        } else {
            assert(d * sig * p == sig * p * d) by (nonlinear_arith);
        }
    }
    r
}

/// Rounds `num / den` to the nearest double, ties to even. The result is a
/// sign-free bit pattern; `INFINITY_BITS` says that the ratio is too large
/// for a finite double.
pub fn round_ratio(num: &Natural, den: &Natural) -> (m: u64)
    requires
        den.value() > 0,
    ensures
        rounds_to(num.value(), den.value(), m),
        m == nearest(num.value(), den.value()),
{
    let ghost d = den.value();
    let target = num.mul_pow2(1074);
    let ghost t = target.value();
    let top = scaled(den, INFINITY_BITS, false);
    let m = match top.compare(&target) {
        Order::Above => {
            let mut low: u64 = 0;
            let mut high: u64 = INFINITY_BITS;
            proof {
                lemma2_to64();
                assert(magnitude(0) == 0) by {
                    assert(significand(0) == 0);
                    assert(0 * pow2(scale(0)) == 0) by (nonlinear_arith);
                }
                assert(0 * d == 0) by (nonlinear_arith);
            }
            while high - low > 1
                invariant
                    low < high <= INFINITY_BITS,
                    d == den.value(),
                    t == target.value(),
                    magnitude(low) * d <= t,
                    t < magnitude(high) * d,
                decreases high - low,
            {
                let mid = low + (high - low) / 2;
                let at_mid = scaled(den, mid, false);
                match at_mid.compare(&target) {
                    Order::Above => {
                        high = mid;
                    },
                    _ => {
                        low = mid;
                    },
                }
            }
            let twice = target.mul_add(2, 0);
            let half = scaled(den, low, true);
            let up = match half.compare(&twice) {
                Order::Above => false,
                Order::Below => true,
                Order::Same => low % 2 == 1,
            };
            proof {
                let h = magnitude(low) + magnitude((low + 1) as u64);
                assert(twice.value() == 2 * (num.value() * pow2(1074)));
                lemma_next_magnitude(low);
                let a = magnitude(low);
                let b = magnitude((low + 1) as u64);
                assert((a + a) * d <= 2 * t && 2 * t < (b + b) * d) by (nonlinear_arith)
                    requires
                        a * d <= t,
                        t < b * d,
                ;
                if up {
                    let r = (low + 1) as u64;
                    if r < INFINITY_BITS {
                        lemma_next_magnitude(r);
                        let c = magnitude((r + 1) as u64);
                        assert((b + b) * d < (b + c) * d) by (nonlinear_arith)
                            requires
                                b < c,
                                d > 0,
                        ;
                    }
                    assert(rounds_to(num.value(), d, r));
                } else {
                    if low > 0 {
                        lemma_next_magnitude((low - 1) as u64);
                        let z = magnitude((low - 1) as u64);
                        assert((z + a) * d < (a + a) * d) by (nonlinear_arith)
                            requires
                                z < a,
                                d > 0,
                        ;
                    }
                    assert(rounds_to(num.value(), d, low));
                }
            }
            if up {
                low + 1
            } else {
                low
            }
        },
        _ => {
            proof {
                let last = (INFINITY_BITS - 1) as u64;
                lemma_next_magnitude(last);
                let z = magnitude(last);
                let a = magnitude(INFINITY_BITS);
                assert((z + a) * d <= 2 * t) by (nonlinear_arith)
                    requires
                        z < a,
                        a * d <= t,
                        d > 0,
                ;
            }
            INFINITY_BITS
        },
    };
    proof {
        let n = nearest(num.value(), d);
        assert(rounds_to(num.value(), d, m));
        lemma_rounding_is_unique(num.value(), d, m, n);
    }
    m
}

} // verus!
