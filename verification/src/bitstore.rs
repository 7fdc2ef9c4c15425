//! Growable bit storage: a sequence of boolean flags addressed by position,
//! with point set/get, population count, and zero-extending bitwise or.
//! The point set stores membership here, one bit per possible coordinate
//! pair.

use vstd::prelude::*;

verus! {

/// The value of bit i of s, reading positions beyond the end (and negative
/// positions) as off.
pub open spec fn bit_at(s: Seq<bool>, i: int) -> bool {
    0 <= i < s.len() && s[i]
}

/// Number of on bits in s.
pub open spec fn count_on(s: Seq<bool>) -> nat
    decreases s.len(),
{
    if s.len() == 0 {
        0
    } else {
        count_on(s.drop_last()) + if s.last() {
            1nat
        } else {
            0nat
        }
    }
}

/// Extending a prefix by one bit raises the count by that bit.
pub proof fn lemma_count_on_take_step(s: Seq<bool>, k: int)
    requires
        0 <= k < s.len(),
    ensures
        count_on(s.take(k + 1)) == count_on(s.take(k)) + if s[k] {
            1nat
        } else {
            0nat
        },
{
    assert(s.take(k + 1).drop_last() =~= s.take(k));
    assert(s.take(k + 1).last() == s[k]);
}

pub struct BitStore {
    bits: Vec<bool>,
}

impl BitStore {
    /// The stored bits, in position order.
    pub closed spec fn view(&self) -> Seq<bool> {
        self.bits@
    }

    /// A fresh store is empty: zero length, every bit conceptually off.
    pub fn new() -> (r: Self)
        ensures
            r@ == Seq::<bool>::empty(),
    {
        BitStore { bits: Vec::new() }
    }

    /// Current addressable bit count.
    pub fn len(&self) -> (r: usize)
        ensures
            r == self@.len(),
    {
        self.bits.len()
    }

    /// Current value of the bit at i; never called out of bounds.
    pub fn is_set(&self, i: usize) -> (r: bool)
        requires
            i < self@.len(),
        ensures
            r == self@[i as int],
    {
        self.bits[i]
    }

    /// Set the bit at i, transparently growing the store (with off bits)
    /// when i lies at or beyond the current length.
    pub fn set(&mut self, i: usize, value: bool)
        requires
            i < usize::MAX,
        ensures
            final(self)@.len() == if i < old(self)@.len() {
                old(self)@.len() as int
            } else {
                i + 1
            },
            final(self)@[i as int] == value,
            forall|j: int| j != i ==> bit_at(final(self)@, j) == bit_at(old(self)@, j),
    {
        while self.bits.len() <= i
            invariant
                i < usize::MAX,
                old(self)@.len() <= self.bits@.len() <= i + 1 || self.bits@.len() == old(
                    self,
                )@.len(),
                old(self)@ =~= self.bits@.take(old(self)@.len() as int),
                forall|j: int|
                    old(self)@.len() <= j < self.bits@.len() ==> self.bits@[j] == false,
            decreases i + 1 - self.bits@.len(),
        {
            self.bits.push(false);
        }
        self.bits[i] = value;
    }

    /// Population count of the on bits.
    pub fn count_bits_on(&self) -> (r: u64)
        ensures
            r as nat == count_on(self@),
    {
        let n = self.bits.len();
        let mut count: u64 = 0;
        let mut k: usize = 0;
        while k < n
            invariant
                n == self@.len(),
                k <= n,
                count <= k,
                count as nat == count_on(self@.take(k as int)),
            decreases n - k,
        {
            proof {
                lemma_count_on_take_step(self@, k as int);
            }
            if self.bits[k] {
                count = count + 1;
            }
            k = k + 1;
        }
        assert(self@.take(n as int) =~= self@);
        count
    }

    /// Bitwise or with another store: the result has the longer length, and
    /// each bit is the disjunction of the operands' bits, the shorter
    /// operand read as zero-extended. Neither operand is changed.
    pub fn or(&self, other: &Self) -> (r: Self)
        ensures
            r@.len() == if self@.len() >= other@.len() {
                self@.len()
            } else {
                other@.len()
            },
            forall|j: int| bit_at(r@, j) == (bit_at(self@, j) || bit_at(other@, j)),
    {
        let n = if self.bits.len() >= other.bits.len() {
            self.bits.len()
        } else {
            other.bits.len()
        };
        let mut v: Vec<bool> = Vec::new();
        let mut k: usize = 0;
        while k < n
            invariant
                n == if self@.len() >= other@.len() {
                    self@.len()
                } else {
                    other@.len()
                },
                k <= n,
                v@.len() == k,
                forall|j: int| 0 <= j < k ==> v@[j] == (bit_at(self@, j) || bit_at(other@, j)),
            decreases n - k,
        {
            let a = if k < self.bits.len() {
                self.bits[k]
            } else {
                false
            };
            let b = if k < other.bits.len() {
                other.bits[k]
            } else {
                false
            };
            v.push(a || b);
            k = k + 1;
        }
        BitStore { bits: v }
    }
}

} // verus!
