//! Natural numbers of any length.

use vstd::arithmetic::power2::*;
use vstd::prelude::*;

verus! {

/// The value of a row of 32-bit limbs, lowest first.
pub open spec fn limbs_value(s: Seq<u32>) -> int
    decreases s.len(),
{
    if s.len() == 0 {
        0
    } else {
        limbs_value(s.drop_last()) + s.last() * pow2((32 * (s.len() - 1)) as nat)
    }
}

proof fn lemma_limbs_push(s: Seq<u32>, x: u32)
    ensures
        limbs_value(s.push(x)) == limbs_value(s) + x * pow2((32 * s.len()) as nat),
{
    assert(s.push(x).drop_last() == s);
}

proof fn lemma_limbs_take(s: Seq<u32>, i: int)
    requires
        0 <= i < s.len(),
    ensures
        limbs_value(s.take(i + 1)) == limbs_value(s.take(i)) + s[i] * pow2((32 * i) as nat),
{
    assert(s.take(i + 1).drop_last() == s.take(i));
}

proof fn lemma_limb_power(i: nat)
    ensures
        pow2((32 * (i + 1)) as nat) == 0x1_0000_0000 * pow2((32 * i) as nat),
        pow2((32 * i) as nat) > 0,
{
    lemma_pow2_adds(32, (32 * i) as nat);
    lemma2_to64();
    lemma_pow2_pos((32 * i) as nat);
}

/// The value of a row of limbs fits in their number.
pub proof fn lemma_limbs_bounds(s: Seq<u32>)
    ensures
        0 <= limbs_value(s) < pow2((32 * s.len()) as nat),
    decreases s.len(),
{
    lemma2_to64();
    if s.len() > 0 {
        let i = (s.len() - 1) as nat;
        lemma_limbs_bounds(s.drop_last());
        lemma_limb_power(i);
        let p = pow2((32 * i) as nat) as int;
        let x = s.last() as int;
        assert(0 <= x * p && x * p + p <= 0x1_0000_0000 * p) by (nonlinear_arith)
            requires
                0 <= x < 0x1_0000_0000,
                0 < p,
        ;
    }
}

/// A natural number of any length.
pub struct Big {
    limbs: Vec<u32>,
}

impl Big {
    /// The number that the limbs write.
    pub closed spec fn value(self) -> int {
        limbs_value(self.limbs@)
    }

    /// The number of one limb.
    pub fn from_u32(n: u32) -> (r: Big)
        ensures
            r.value() == n,
    {
        let mut limbs: Vec<u32> = Vec::new();
        limbs.push(n);
        proof {
            lemma2_to64();
            lemma_limbs_push(Seq::empty(), n);
            assert(limbs@ == Seq::<u32>::empty().push(n));
            assert(n * pow2(0) == n) by (nonlinear_arith)
                requires
                    pow2(0) == 1,
            ;
        }
        Big { limbs }
    }

    /// This number times `factor`, plus `term`.
    pub fn mul_add(&self, factor: u32, term: u32) -> (r: Big)
        ensures
            r.value() == self.value() * factor + term,
    {
        let mut out: Vec<u32> = Vec::new();
        let mut carry: u64 = term as u64;
        let mut i: usize = 0;
        proof {
            lemma2_to64();
            assert(self.limbs@.take(0) == Seq::<u32>::empty());
            assert(term * pow2(0) == term && 0 * factor == 0) by (nonlinear_arith)
                requires
                    pow2(0) == 1,
            ;
        }
        while i < self.limbs.len()
            invariant
                i <= self.limbs.len(),
                out.len() == i,
                carry < 0x1_0000_0000,
                limbs_value(out@) + carry * pow2((32 * i) as nat) == limbs_value(
                    self.limbs@.take(i as int),
                ) * factor + term,
            decreases self.limbs.len() - i,
        {
            let limb: u32 = self.limbs[i];
            proof {
                assert(limb * factor <= 0xFFFF_FFFF * 0xFFFF_FFFF) by (nonlinear_arith)
                    requires
                        0 <= limb <= 0xFFFF_FFFF,
                        0 <= factor <= 0xFFFF_FFFF,
                ;
            }
            let t: u64 = limb as u64 * factor as u64 + carry;
            let low: u32 = (t % 0x1_0000_0000) as u32;
            let high: u64 = t / 0x1_0000_0000;
            proof {
                let p = pow2((32 * i) as nat) as int;
                lemma_limb_power(i as nat);
                lemma_limbs_take(self.limbs@, i as int);
                lemma_limbs_push(out@, low);
                let a = limbs_value(self.limbs@.take(i as int));
                assert(low * p + high * (0x1_0000_0000 * p) == (limb * factor) * p + carry * p)
                    by (nonlinear_arith)
                    requires
                        limb * factor + carry == high * 0x1_0000_0000 + low,
                ;
                assert((a + limb * p) * factor == a * factor + (limb * factor) * p)
                    by (nonlinear_arith);
            }
            out.push(low);
            carry = high;
            i = i + 1;
        }
        proof {
            assert(self.limbs@.take(i as int) == self.limbs@);
        }
        if carry != 0 {
            proof {
                lemma_limbs_push(out@, carry as u32);
            }
            out.push(carry as u32);
        }
        Big { limbs: out }
    }

    /// The limb at a place, zero above the highest.
    fn limb(&self, i: usize) -> (x: u32)
        ensures
            x == (if i < self.limbs@.len() {
                self.limbs@[i as int]
            } else {
                0
            }),
    {
        if i < self.limbs.len() {
            self.limbs[i]
        } else {
            0
        }
    }

    /// The value of the lowest limbs.
    closed spec fn low_value(self, i: int) -> int {
        if i < self.limbs@.len() {
            limbs_value(self.limbs@.take(i))
        } else {
            limbs_value(self.limbs@)
        }
    }

    proof fn lemma_low_step(self, i: int)
        requires
            0 <= i,
        ensures
            self.low_value(i + 1) == self.low_value(i) + (if i < self.limbs@.len() {
                self.limbs@[i]
            } else {
                0
            }) * pow2((32 * i) as nat),
    {
        if i < self.limbs@.len() {
            lemma_limbs_take(self.limbs@, i);
            if i + 1 == self.limbs@.len() {
                assert(self.limbs@.take(i + 1) == self.limbs@);
            }
        }
    }

    /// The difference, if this number is not the lesser.
    pub fn checked_sub(&self, other: &Big) -> (r: Option<Big>)
        ensures
            match r {
                Some(d) => d.value() == self.value() - other.value() && d.value() >= 0,
                None => self.value() < other.value(),
            },
    {
        let n: usize = if self.limbs.len() > other.limbs.len() {
            self.limbs.len()
        } else {
            other.limbs.len()
        };
        let mut out: Vec<u32> = Vec::new();
        let mut borrow: u64 = 0;
        let mut i: usize = 0;
        proof {
            lemma2_to64();
            assert(self.limbs@.take(0) == Seq::<u32>::empty());
            assert(other.limbs@.take(0) == Seq::<u32>::empty());
        }
        while i < n
            invariant
                i <= n,
                n >= self.limbs.len(),
                n >= other.limbs.len(),
                out.len() == i,
                borrow <= 1,
                limbs_value(out@) == self.low_value(i as int) - other.low_value(i as int) + borrow
                    * pow2((32 * i) as nat),
            decreases n - i,
        {
            let x: u32 = self.limb(i);
            let y: u32 = other.limb(i);
            let t: u64 = x as u64 + 0x1_0000_0000 - y as u64 - borrow;
            let low: u32 = (t % 0x1_0000_0000) as u32;
            let next: u64 = if t < 0x1_0000_0000 {
                1
            } else {
                0
            };
            proof {
                let p = pow2((32 * i) as nat) as int;
                lemma_limb_power(i as nat);
                self.lemma_low_step(i as int);
                other.lemma_low_step(i as int);
                lemma_limbs_push(out@, low);
                assert(low * p + borrow * p == x * p - y * p + next * (0x1_0000_0000 * p))
                    by (nonlinear_arith)
                    requires
                        low + borrow == x - y + next * 0x1_0000_0000,
                ;
            }
            out.push(low);
            borrow = next;
            i = i + 1;
        }
        proof {
            lemma_limbs_bounds(out@);
        }
        if borrow == 0 {
            Some(Big { limbs: out })
        } else {
            None
        }
    }

    /// Whether this is zero.
    pub fn is_zero(&self) -> (r: bool)
        ensures
            r == (self.value() == 0),
    {
        let mut i: usize = 0;
        proof {
            assert(self.limbs@.take(0) == Seq::<u32>::empty());
        }
        while i < self.limbs.len()
            invariant
                i <= self.limbs.len(),
                limbs_value(self.limbs@.take(i as int)) == 0,
            decreases self.limbs.len() - i,
        {
            proof {
                lemma_limbs_take(self.limbs@, i as int);
                lemma_limb_power(i as nat);
            }
            if self.limbs[i] != 0 {
                proof {
                    let x = self.limbs@[i as int] as int;
                    let p = pow2((32 * i) as nat) as int;
                    assert(x * p > 0) by (nonlinear_arith)
                        requires
                            x > 0,
                            p > 0,
                    ;
                    lemma_limbs_prefix(self.limbs@, i + 1);
                }
                return false;
            }
            i = i + 1;
        }
        proof {
            assert(self.limbs@.take(i as int) == self.limbs@);
        }
        true
    }
}

proof fn lemma_limbs_prefix(s: Seq<u32>, i: int)
    requires
        0 <= i <= s.len(),
    ensures
        limbs_value(s.take(i)) <= limbs_value(s),
    decreases s.len() - i,
{
    if i == s.len() {
        assert(s.take(i) == s);
    } else {
        lemma_limbs_take(s, i);
        lemma_limb_power(i as nat);
        let x = s[i] as int;
        let p = pow2((32 * i) as nat) as int;
        assert(x * p >= 0) by (nonlinear_arith)
            requires
                x >= 0,
                p > 0,
        ;
        lemma_limbs_prefix(s, i + 1);
    }
}

} // verus!
