//! Natural numbers of any size, held as 32-bit limbs.
//!
//! Rounding a decimal to a double exactly needs comparisons between numbers
//! of a few thousand bits. This module offers the three operations that the
//! rounding uses (multiply by a word and add, multiply by a power of two,
//! compare), each proved against the number that the limbs denote.

use vstd::arithmetic::power2::*;
use vstd::prelude::*;

verus! {

/// What one step up in limb position multiplies by: `2^32`.
pub open spec fn radix() -> nat {
    0x1_0000_0000
}

/// The weight of the limb at position `i`: `2^(32 i)`.
pub open spec fn weight(i: nat) -> nat {
    pow2(32 * i)
}

/// The number that a little-endian sequence of limbs denotes.
pub open spec fn limbs_value(limbs: Seq<u32>) -> nat
    decreases limbs.len(),
{
    if limbs.len() == 0 {
        0
    } else {
        limbs_value(limbs.drop_last()) + limbs.last() as nat * weight((limbs.len() - 1) as nat)
    }
}

/// `limbs`, extended by zero limbs to length `n`.
pub open spec fn padded(limbs: Seq<u32>, n: nat) -> Seq<u32> {
    Seq::new(
        if n >= limbs.len() {
            n
        } else {
            limbs.len()
        },
        |i: int|
            if i < limbs.len() {
                limbs[i]
            } else {
                0u32
            },
    )
}

/// Each position weighs `2^32` times the one below it; the lowest
/// weighs one.
pub proof fn lemma_weight_step(i: nat)
    ensures
        weight(i + 1) == weight(i) * radix(),
        weight(i) > 0,
        weight(0) == 1,
{
    lemma2_to64();
    lemma_pow2_adds(32 * i, 32);
    lemma_pow2_pos(32 * i);
    assert(32 * (i + 1) == 32 * i + 32);
}

/// A limb appended at the top adds its value at the weight of its
/// position.
pub proof fn lemma_value_push(limbs: Seq<u32>, top: u32)
    ensures
        limbs_value(limbs.push(top)) == limbs_value(limbs) + top as nat * weight(limbs.len()),
{
    assert(limbs.push(top).drop_last() == limbs);
}

/// The first `i + 1` limbs denote what the first `i` denote, and the limb
/// at `i` at its weight.
pub proof fn lemma_value_take(limbs: Seq<u32>, i: int)
    requires
        0 <= i < limbs.len(),
    ensures
        limbs_value(limbs.take(i + 1)) == limbs_value(limbs.take(i)) + limbs[i] as nat * weight(
            i as nat,
        ),
{
    assert(limbs.take(i + 1).drop_last() == limbs.take(i));
}

/// A number of `n` limbs is below `2^(32 n)`.
pub proof fn lemma_value_bound(limbs: Seq<u32>)
    ensures
        limbs_value(limbs) < weight(limbs.len()),
    decreases limbs.len(),
{
    if limbs.len() == 0 {
        lemma_weight_step(0);
    } else {
        let n = (limbs.len() - 1) as nat;
        lemma_value_bound(limbs.drop_last());
        lemma_weight_step(n);
        let w = weight(n);
        let top = limbs.last() as nat;
        assert(top * w + w <= w * radix()) by (nonlinear_arith)
            requires
                top + 1 <= radix(),
                w > 0,
        ;
    }
}

/// Zero limbs at the top do not change the number.
pub proof fn lemma_value_padded(limbs: Seq<u32>, n: nat)
    ensures
        limbs_value(padded(limbs, n)) == limbs_value(limbs),
    decreases n,
{
    if n <= limbs.len() {
        assert(padded(limbs, n) == limbs);
    } else {
        lemma_value_padded(limbs, (n - 1) as nat);
        assert(padded(limbs, n).drop_last() == padded(limbs, (n - 1) as nat));
        assert(padded(limbs, n).last() == 0u32);
    }
}

/// Where two numbers of equal length agree above position `i` and differ at
/// `i`, the limb at `i` decides which is smaller.
pub proof fn lemma_top_difference_decides(a: Seq<u32>, b: Seq<u32>, i: int)
    requires
        a.len() == b.len(),
        0 <= i < a.len(),
        forall|j: int| i < j < a.len() ==> a[j] == b[j],
        a[i] < b[i],
    ensures
        limbs_value(a) < limbs_value(b),
    decreases a.len(),
{
    let n = (a.len() - 1) as nat;
    let w = weight(n);
    if i == n {
        lemma_value_bound(a.drop_last());
        lemma_weight_step(n);
        let x = a[i] as nat;
        let y = b[i] as nat;
        assert(x * w + w <= y * w) by (nonlinear_arith)
            requires
                x + 1 <= y,
                w > 0,
        ;
    } else {
        lemma_top_difference_decides(a.drop_last(), b.drop_last(), i);
    }
}

/// The outcome of comparing two numbers.
#[derive(Debug, Clone, Copy, PartialEq, Eq, Structural)]
pub enum Order {
    Below,
    Same,
    Above,
}

/// A natural number of any size.
pub struct Natural {
    limbs: Vec<u32>,
}

impl Natural {
    /// The number held.
    pub closed spec fn value(&self) -> nat {
        limbs_value(self.limbs@)
    }

    /// The number `x`.
    pub fn from_u64(x: u64) -> (r: Natural)
        ensures
            r.value() == x,
    {
        let mut limbs: Vec<u32> = Vec::new();
        limbs.push((x % 0x1_0000_0000) as u32);
        limbs.push((x / 0x1_0000_0000) as u32);
        proof {
            let low = (x % 0x1_0000_0000) as u32;
            let high = (x / 0x1_0000_0000) as u32;
            lemma_value_push(Seq::<u32>::empty(), low);
            lemma_value_push(Seq::<u32>::empty().push(low), high);
            lemma_weight_step(0);
            assert(weight(1) == 0x1_0000_0000);
            assert(limbs@ == Seq::<u32>::empty().push(low).push(high));
            assert(limbs_value(Seq::<u32>::empty()) == 0);
            assert(x == low + high * 0x1_0000_0000);
            assert(low as nat * weight(0) == low) by (nonlinear_arith)
                requires
                    weight(0) == 1,
            ;
            assert(high as nat * weight(1) == high * 0x1_0000_0000) by (nonlinear_arith)
                requires
                    weight(1) == 0x1_0000_0000,
            ;
        }
        Natural { limbs }
    }

    /// `self * factor + addend`.
    pub fn mul_add(&self, factor: u64, addend: u64) -> (r: Natural)
        ensures
            r.value() == self.value() * factor + addend,
    {
        let n = self.limbs.len();
        let mut out: Vec<u32> = Vec::new();
        let mut carry: u128 = addend as u128;
        let mut i: usize = 0;
        proof {
            lemma_weight_step(0);
            assert(self.limbs@.take(0) == Seq::<u32>::empty());
            assert(limbs_value(Seq::<u32>::empty()) == 0);
        }
        while i < n
            invariant
                n == self.limbs.len(),
                i <= n,
                out.len() == i,
                carry <= u64::MAX,
                limbs_value(out@) + carry * weight(i as nat) == limbs_value(
                    self.limbs@.take(i as int),
                ) * factor + addend,
            decreases n - i,
        {
            let limb = self.limbs[i];
            assert(limb as u128 * factor as u128 + carry <= 0xffff_ffff_ffff_ffff_0000_0000)
                by (nonlinear_arith)
                requires
                    limb <= 0xffff_ffff,
                    factor <= 0xffff_ffff_ffff_ffff,
                    carry <= 0xffff_ffff_ffff_ffff,
            ;
            let t: u128 = limb as u128 * factor as u128 + carry;
            let low: u32 = (t % 0x1_0000_0000) as u32;
            let high: u128 = t / 0x1_0000_0000;
            proof {
                let w = weight(i as nat);
                let before = limbs_value(out@);
                let prefix = limbs_value(self.limbs@.take(i as int));
                lemma_value_push(out@, low);
                lemma_value_take(self.limbs@, i as int);
                lemma_weight_step(i as nat);
                assert(before + low as nat * w + high * (w * radix()) == (prefix + limb as nat * w)
                    * factor + addend) by (nonlinear_arith)
                    requires
                        before + carry * w == prefix * factor + addend,
                        t == limb * factor + carry,
                        t == high * radix() + low,
                ;
            }
            out.push(low);
            carry = high;
            i += 1;
        }
        let low: u32 = (carry % 0x1_0000_0000) as u32;
        let high: u32 = (carry / 0x1_0000_0000) as u32;
        proof {
            let w = weight(n as nat);
            lemma_value_push(out@, low);
            lemma_value_push(out@.push(low), high);
            lemma_weight_step(n as nat);
            assert(self.limbs@.take(n as int) == self.limbs@);
            assert(low as nat * w + high as nat * (w * radix()) == carry * w) by (nonlinear_arith)
                requires
                    carry == high * radix() + low,
            ;
            assert(high == 0 ==> high as nat * (w * radix()) == 0) by (nonlinear_arith);
            assert(carry == 0 ==> carry * w == 0) by (nonlinear_arith);
        }
        if high != 0 {
            out.push(low);
            out.push(high);
        } else if low != 0 {
            out.push(low);
        }
        Natural { limbs: out }
    }

    /// `self * 2^(32 k)`: the limbs moved up by `k` positions.
    fn shift_limbs(&self, k: usize) -> (r: Natural)
        ensures
            r.value() == self.value() * weight(k as nat),
    {
        let n = self.limbs.len();
        let mut out: Vec<u32> = Vec::new();
        let mut z: usize = 0;
        proof {
            assert(limbs_value(Seq::<u32>::empty()) == 0);
        }
        while z < k
            invariant
                z <= k,
                out.len() == z,
                limbs_value(out@) == 0,
            decreases k - z,
        {
            proof {
                lemma_value_push(out@, 0u32);
            }
            out.push(0u32);
            z += 1;
        }
        let mut i: usize = 0;
        proof {
            assert(self.limbs@.take(0) == Seq::<u32>::empty());
        }
        while i < n
            invariant
                n == self.limbs.len(),
                i <= n,
                out.len() == k + i,
                limbs_value(out@) == limbs_value(self.limbs@.take(i as int)) * weight(k as nat),
            decreases n - i,
        {
            let limb = self.limbs[i];
            proof {
                let prefix = limbs_value(self.limbs@.take(i as int));
                lemma_value_push(out@, limb);
                lemma_value_take(self.limbs@, i as int);
                lemma_pow2_adds(32 * (k as nat), 32 * (i as nat));
                assert(32 * ((k + i) as nat) == 32 * (k as nat) + 32 * (i as nat));
                let wk = weight(k as nat);
                let wi = weight(i as nat);
                assert(prefix * wk + limb as nat * (wk * wi) == (prefix + limb as nat * wi) * wk)
                    by (nonlinear_arith);
            }
            out.push(limb);
            i += 1;
        }
        proof {
            assert(self.limbs@.take(n as int) == self.limbs@);
        }
        Natural { limbs: out }
    }

    /// `self * 2^e`.
    pub fn mul_pow2(&self, e: u32) -> (r: Natural)
        ensures
            r.value() == self.value() * pow2(e as nat),
    {
        let whole: u32 = e / 32;
        let rest: u32 = e % 32;
        let mut p: u64 = 1;
        let mut j: u32 = 0;
        proof {
            lemma2_to64();
        }
        while j < rest
            invariant
                j <= rest,
                rest < 32,
                p == pow2(j as nat),
                p <= 0x8000_0000,
            decreases rest - j,
        {
            proof {
                lemma2_to64();
                lemma_pow2_unfold((j + 1) as nat);
                if j + 1 < 31 {
                    lemma_pow2_strictly_increases((j + 1) as nat, 31);
                }
            }
            p = p * 2;
            j += 1;
        }
        let moved = self.shift_limbs(whole as usize);
        let r = moved.mul_add(p, 0);
        proof {
            lemma_pow2_adds(32 * (whole as nat), rest as nat);
            assert(32 * (whole as nat) + rest as nat == e as nat);
            let v = self.value();
            let a = weight(whole as nat);
            let b = pow2(rest as nat);
            assert(v * a * b == v * (a * b)) by (nonlinear_arith);
        }
        r
    }

    /// The limb at position `i`, zero above the top.
    fn limb(&self, i: usize) -> (r: u32)
        ensures
            r == padded(self.limbs@, (i + 1) as nat)[i as int],
    {
        if i < self.limbs.len() {
            self.limbs[i]
        } else {
            0
        }
    }

    /// Where `self` stands relative to `other`.
    pub fn compare(&self, other: &Natural) -> (r: Order)
        ensures
            r == Order::Below <==> self.value() < other.value(),
            r == Order::Same <==> self.value() == other.value(),
            r == Order::Above <==> self.value() > other.value(),
    {
        let n = if self.limbs.len() >= other.limbs.len() {
            self.limbs.len()
        } else {
            other.limbs.len()
        };
        let ghost a = padded(self.limbs@, n as nat);
        let ghost b = padded(other.limbs@, n as nat);
        proof {
            lemma_value_padded(self.limbs@, n as nat);
            lemma_value_padded(other.limbs@, n as nat);
        }
        let mut i: usize = n;
        while i > 0
            invariant
                i <= n,
                n >= self.limbs.len(),
                n >= other.limbs.len(),
                a == padded(self.limbs@, n as nat),
                b == padded(other.limbs@, n as nat),
                a.len() == n,
                b.len() == n,
                limbs_value(a) == self.value(),
                limbs_value(b) == other.value(),
                forall|j: int| i <= j < n ==> a[j] == b[j],
            decreases i,
        {
            i -= 1;
            let x = self.limb(i);
            let y = other.limb(i);
            assert(x == a[i as int] && y == b[i as int]);
            if x < y {
                proof {
                    lemma_top_difference_decides(a, b, i as int);
                }
                return Order::Below;
            }
            if x > y {
                proof {
                    lemma_top_difference_decides(b, a, i as int);
                }
                return Order::Above;
            }
        }
        assert(a == b);
        Order::Same
    }
}

} // verus!
