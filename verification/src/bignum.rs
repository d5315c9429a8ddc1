//! Natural numbers of any size, as much of them as correct rounding needs.

use vstd::arithmetic::power::{lemma_pow0, lemma_pow_positive, pow};
use vstd::prelude::*;

verus! {

/// One more than the largest limb.
pub const LIMB_BASE: u64 = 0x1_0000_0000;

/// The weight of limb `i`.
pub open spec fn limb_weight(i: nat) -> int {
    pow(LIMB_BASE as int, i)
}

/// The number that a little-endian sequence of limbs denotes.
pub open spec fn limbs_value(limbs: Seq<u32>) -> int
    decreases limbs.len(),
{
    if limbs.len() == 0 {
        0
    } else {
        limbs_value(limbs.drop_last()) + limbs.last() * limb_weight((limbs.len() - 1) as nat)
    }
}

/// A natural number held as little-endian limbs.
pub struct BigNat {
    pub limbs: Vec<u32>,
}

impl View for BigNat {
    type V = int;

    open spec fn view(&self) -> int {
        limbs_value(self.limbs@)
    }
}

proof fn lemma_weight_step(i: nat)
    ensures
        limb_weight(i + 1) == LIMB_BASE * limb_weight(i),
        limb_weight(i) > 0,
{
    reveal(pow);
    lemma_pow_positive(LIMB_BASE as int, i);
    assert(pow(LIMB_BASE as int, i + 1) == LIMB_BASE * pow(LIMB_BASE as int, i));
}

proof fn lemma_value_push(limbs: Seq<u32>, x: u32)
    ensures
        limbs_value(limbs.push(x)) == limbs_value(limbs) + x * limb_weight(limbs.len()),
{
    assert(limbs.push(x).drop_last() =~= limbs);
}

proof fn lemma_value_take(limbs: Seq<u32>, i: int)
    requires
        0 <= i < limbs.len(),
    ensures
        limbs_value(limbs.take(i + 1)) == limbs_value(limbs.take(i)) + limbs[i] * limb_weight(
            i as nat,
        ),
{
    assert(limbs.take(i + 1).drop_last() =~= limbs.take(i));
}

/// Every sequence of limbs denotes a natural number below the weight of the next limb.
proof fn lemma_value_bounds(limbs: Seq<u32>)
    ensures
        0 <= limbs_value(limbs) < limb_weight(limbs.len()),
    decreases limbs.len(),
{
    if limbs.len() == 0 {
        lemma_pow0(LIMB_BASE as int);
    } else {
        let k = (limbs.len() - 1) as nat;
        lemma_value_bounds(limbs.drop_last());
        lemma_weight_step(k);
        let w = limb_weight(k);
        let x = limbs.last() as int;
        assert(0 <= x * w <= (LIMB_BASE - 1) * w) by (nonlinear_arith)
            requires
                0 <= x <= LIMB_BASE - 1,
                w > 0,
        ;
        assert((LIMB_BASE - 1) * w + w == LIMB_BASE * w) by (nonlinear_arith);
    }
}

impl BigNat {
    /// The number of a machine word.
    pub fn from_u64(x: u64) -> (r: BigNat)
        ensures
            r@ == x,
    {
        let low: u32 = (x % LIMB_BASE) as u32;
        let high: u32 = (x / LIMB_BASE) as u32;
        let mut limbs: Vec<u32> = Vec::new();
        limbs.push(low);
        limbs.push(high);
        proof {
            let e = Seq::<u32>::empty();
            assert(limbs@ =~= e.push(low).push(high));
            lemma_value_push(e, low);
            lemma_value_push(e.push(low), high);
            lemma_pow0(LIMB_BASE as int);
            lemma_weight_step(0);
            assert(limb_weight(0) == 1);
            assert(limb_weight(1) == LIMB_BASE);
            assert(limbs_value(e) == 0);
            assert(low * limb_weight(0) == low) by (nonlinear_arith)
                requires
                    limb_weight(0) == 1,
            ;
            assert(high * limb_weight(1) == x - low) by (nonlinear_arith)
                requires
                    limb_weight(1) == LIMB_BASE,
                    x == high * LIMB_BASE + low,
            ;
        }
        BigNat { limbs }
    }

    /// `self * factor + addend`.
    pub fn mul_add(&self, factor: u32, addend: u32) -> (r: BigNat)
        ensures
            r@ == self@ * factor + addend,
    {
        let mut out: Vec<u32> = Vec::new();
        let mut carry: u64 = addend as u64;
        let mut i: usize = 0;
        proof {
            lemma_pow0(LIMB_BASE as int);
            assert(self.limbs@.take(0) =~= Seq::<u32>::empty());
        }
        while i < self.limbs.len()
            invariant
                i <= self.limbs.len(),
                out@.len() == i,
                carry < LIMB_BASE,
                limbs_value(out@) + carry * limb_weight(i as nat) == limbs_value(
                    self.limbs@.take(i as int),
                ) * factor + addend,
            decreases self.limbs.len() - i,
        {
            let limb: u32 = self.limbs[i];
            proof {
                assert(limb * factor <= 0xffff_ffff * 0xffff_ffff) by (nonlinear_arith)
                    requires
                        0 <= limb <= 0xffff_ffff,
                        0 <= factor <= 0xffff_ffff,
                ;
                assert(limb * factor >= 0) by (nonlinear_arith)
                    requires
                        0 <= limb,
                        0 <= factor,
                ;
            }
            let t: u64 = (limb as u64) * (factor as u64) + carry;
            let low: u32 = (t % LIMB_BASE) as u32;
            let high: u64 = t / LIMB_BASE;
            proof {
                let w = limb_weight(i as nat);
                lemma_value_push(out@, low);
                lemma_value_take(self.limbs@, i as int);
                lemma_weight_step(i as nat);
                let v = limbs_value(self.limbs@.take(i as int));
                assert(low * w + high * (LIMB_BASE * w) == t * w) by (nonlinear_arith)
                    requires
                        t == high * LIMB_BASE + low,
                ;
                assert(t * w == (limb * factor) * w + carry * w) by (nonlinear_arith)
                    requires
                        t == limb * factor + carry,
                ;
                assert((v + limb * w) * factor == v * factor + (limb * factor) * w)
                    by (nonlinear_arith);
            }
            out.push(low);
            carry = high;
            i = i + 1;
        }
        proof {
            assert(self.limbs@.take(i as int) =~= self.limbs@);
            lemma_value_push(out@, carry as u32);
            assert(0 * limb_weight(i as nat) == 0);
        }
        if carry > 0 {
            out.push(carry as u32);
        }
        BigNat { limbs: out }
    }

    /// `2 * self`.
    pub fn doubled(&self) -> (r: BigNat)
        ensures
            r@ == 2 * self@,
    {
        self.mul_add(2, 0)
    }

    /// The limb at `i`, zero beyond the stored ones.
    fn limb(&self, i: usize) -> (x: u32)
        ensures
            x == padded_limb(self.limbs@, i as int),
    {
        if i < self.limbs.len() {
            self.limbs[i]
        } else {
            0
        }
    }

    /// `self + other`.
    pub fn plus(&self, other: &BigNat) -> (r: BigNat)
        ensures
            r@ == self@ + other@,
    {
        let n: usize = if self.limbs.len() < other.limbs.len() {
            other.limbs.len()
        } else {
            self.limbs.len()
        };
        let mut out: Vec<u32> = Vec::new();
        let mut carry: u64 = 0;
        let mut i: usize = 0;
        proof {
            lemma_pow0(LIMB_BASE as int);
            lemma_padded_prefix(self.limbs@, n as nat);
            lemma_padded_prefix(other.limbs@, n as nat);
        }
        while i < n
            invariant
                i <= n,
                out@.len() == i,
                carry <= 1,
                limbs_value(out@) + carry * limb_weight(i as nat) == prefix_value(
                    self.limbs@,
                    i as nat,
                ) + prefix_value(other.limbs@, i as nat),
            decreases n - i,
        {
            let a: u32 = self.limb(i);
            let b: u32 = other.limb(i);
            let t: u64 = a as u64 + b as u64 + carry;
            let low: u32 = (t % LIMB_BASE) as u32;
            let high: u64 = t / LIMB_BASE;
            proof {
                let w = limb_weight(i as nat);
                lemma_value_push(out@, low);
                lemma_weight_step(i as nat);
                assert(low * w + high * (LIMB_BASE * w) == a * w + b * w + carry * w)
                    by (nonlinear_arith)
                    requires
                        a + b + carry == high * LIMB_BASE + low,
                ;
            }
            out.push(low);
            carry = high;
            i = i + 1;
        }
        proof {
            lemma_value_push(out@, carry as u32);
            assert(0 * limb_weight(i as nat) == 0);
        }
        if carry > 0 {
            out.push(carry as u32);
        }
        BigNat { limbs: out }
    }

    /// `self - other`, or `None` where that is negative.
    pub fn checked_minus(&self, other: &BigNat) -> (r: Option<BigNat>)
        ensures
            match r {
                Some(d) => self@ >= other@ && d@ == self@ - other@,
                None => self@ < other@,
            },
    {
        let n: usize = if self.limbs.len() < other.limbs.len() {
            other.limbs.len()
        } else {
            self.limbs.len()
        };
        let mut out: Vec<u32> = Vec::new();
        let mut borrow: u64 = 0;
        let mut i: usize = 0;
        proof {
            lemma_pow0(LIMB_BASE as int);
            lemma_padded_prefix(self.limbs@, n as nat);
            lemma_padded_prefix(other.limbs@, n as nat);
        }
        while i < n
            invariant
                i <= n,
                out@.len() == i,
                borrow <= 1,
                limbs_value(out@) - borrow * limb_weight(i as nat) == prefix_value(
                    self.limbs@,
                    i as nat,
                ) - prefix_value(other.limbs@, i as nat),
            decreases n - i,
        {
            let a: u32 = self.limb(i);
            let b: u32 = other.limb(i);
            let t: u64 = LIMB_BASE + a as u64 - b as u64 - borrow;
            let low: u32 = (t % LIMB_BASE) as u32;
            let next: u64 = if t < LIMB_BASE {
                1
            } else {
                0
            };
            proof {
                let w = limb_weight(i as nat);
                lemma_value_push(out@, low);
                lemma_weight_step(i as nat);
                assert(low == a - b - borrow + next * LIMB_BASE);
                assert(low * w - next * (LIMB_BASE * w) == a * w - b * w - borrow * w)
                    by (nonlinear_arith)
                    requires
                        low == a - b - borrow + next * LIMB_BASE,
                ;
            }
            out.push(low);
            borrow = next;
            i = i + 1;
        }
        proof {
            lemma_value_bounds(out@);
            let w = limb_weight(i as nat);
            assert(borrow * w == if borrow == 1 { w } else { 0 }) by (nonlinear_arith)
                requires
                    borrow == 0 || borrow == 1,
            ;
        }
        if borrow == 0 {
            Some(BigNat { limbs: out })
        } else {
            None
        }
    }
}

/// The limb at `i`, zero beyond the end.
spec fn padded_limb(limbs: Seq<u32>, i: int) -> u32 {
    if 0 <= i < limbs.len() {
        limbs[i]
    } else {
        0
    }
}

/// The number that the lowest `n` limbs denote.
spec fn prefix_value(limbs: Seq<u32>, n: nat) -> int
    decreases n,
{
    if n == 0 {
        0
    } else {
        prefix_value(limbs, (n - 1) as nat) + padded_limb(limbs, n - 1) * limb_weight(
            (n - 1) as nat,
        )
    }
}

proof fn lemma_prefix_is_take(limbs: Seq<u32>, n: nat)
    requires
        n <= limbs.len(),
    ensures
        prefix_value(limbs, n) == limbs_value(limbs.take(n as int)),
    decreases n,
{
    if n > 0 {
        lemma_prefix_is_take(limbs, (n - 1) as nat);
        lemma_value_take(limbs, n - 1);
    }
}

proof fn lemma_padded_prefix(limbs: Seq<u32>, n: nat)
    requires
        limbs.len() <= n,
    ensures
        prefix_value(limbs, n) == limbs_value(limbs),
    decreases n,
{
    if n == limbs.len() {
        lemma_prefix_is_take(limbs, n);
        assert(limbs.take(n as int) =~= limbs);
    } else {
        lemma_padded_prefix(limbs, (n - 1) as nat);
        assert(0u32 * limb_weight((n - 1) as nat) == 0) by (nonlinear_arith);
    }
}

/// A number held as limbs is never negative.
pub proof fn lemma_nonnegative(x: BigNat)
    ensures
        x@ >= 0,
{
    lemma_value_bounds(x.limbs@);
}

} // verus!
