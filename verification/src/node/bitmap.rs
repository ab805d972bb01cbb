//! A fixed-capacity bitmap, used as a fast set of node ids during
//! stabilization.

use vstd::arithmetic::div_mod::{lemma_fundamental_div_mod, lemma_mod_bound};
use vstd::prelude::*;

verus! {

/// A set of small integers packed into 64-bit words. Values at or above
/// the capacity chosen at construction are never members, and inserting
/// them has no effect.
pub struct Bitmap {
    /// The packed bits; bit `v % 64` of word `v / 64` records `v`.
    pub bits: Vec<u64>,
}

impl Bitmap {
    /// The members of the bitmap, as a set of integers.
    pub open spec fn view(&self) -> Set<int> {
        Set::new(
            |v: int|
                0 <= v && v / 64 < self.bits@.len() && (self.bits@[v / 64] >> (v % 64) as u64) & 1
                    == 1u64,
        )
    }

    /// How many values the bitmap can hold: one bit for each value below
    /// this bound.
    pub open spec fn capacity(&self) -> int {
        self.bits@.len() as int * 64
    }

    /// Create a bitmap able to hold the values `0 .. size`, all absent.
    pub fn new(size: usize) -> (r: Bitmap)
        requires
            size + 63 < usize::MAX,
        ensures
            r@ == Set::<int>::empty(),
            r.capacity() == ((size + 63) / 64) as int * 64,
            r.capacity() >= size as int,
    {
        let num_elements = (size + 63) / 64;
        let mut bits: Vec<u64> = Vec::new();
        let mut i: usize = 0;
        while i < num_elements
            invariant
                bits@.len() == i,
                i <= num_elements,
                forall|k: int| 0 <= k < i ==> bits@[k] == 0u64,
            decreases num_elements - i,
        {
            bits.push(0);
            i += 1;
        }
        let r = Bitmap { bits };
        proof {
            assert(r@ =~= Set::<int>::empty()) by {
                assert forall|v: int| !r@.contains(v) by {
                    if 0 <= v && v / 64 < r.bits@.len() {
                        assert(r.bits@[v / 64] == 0u64);
                        lemma_zero_bit((v % 64) as u64);
                    }
                }
            }
            lemma_fundamental_div_mod((size + 63) as int, 64);
            lemma_mod_bound((size + 63) as int, 64);
        }
        r
    }

    /// Add `value` to the set; values beyond the capacity are ignored.
    pub fn insert(&mut self, value: usize)
        ensures
            value < old(self).capacity() ==> final(self)@ == old(self)@.insert(value as int),
            value >= old(self).capacity() ==> final(self)@ == old(self)@,
            final(self).capacity() == old(self).capacity(),
    {
        let index = value / 64;
        let bit = value % 64;
        proof {
            lemma_fundamental_div_mod(value as int, 64);
            lemma_mod_bound(value as int, 64);
        }
        if index < self.bits.len() {
            let w = self.bits[index];
            self.bits.set(index, w | (1u64 << (bit as u64)));
            proof {
                lemma_or_bit(w, bit as u64);
                assert(self@ =~= old(self)@.insert(value as int)) by {
                    assert forall|v: int|
                        self@.contains(v) <==> old(self)@.insert(value as int).contains(v) by {
                        if 0 <= v && v / 64 < self.bits@.len() && v != value as int {
                            lemma_fundamental_div_mod(v, 64);
                            lemma_mod_bound(v, 64);
                            if v / 64 == index as int {
                                assert((v % 64) as u64 != bit as u64);
                                lemma_or_bit_other(w, bit as u64, (v % 64) as u64);
                            } else {
                                assert(self.bits@[v / 64] == old(self).bits@[v / 64]);
                            }
                        }
                    }
                }
            }
        } else {
            proof {
                assert(self@ =~= old(self)@);
                assert(value as int >= self.bits@.len() as int * 64);
            }
        }
    }

    /// Whether `value` is in the set.
    pub fn contains(&self, value: &usize) -> (r: bool)
        ensures
            r == self@.contains(*value as int),
    {
        let index = *value / 64;
        let bit = *value % 64;
        proof {
            lemma_fundamental_div_mod(*value as int, 64);
            lemma_mod_bound(*value as int, 64);
        }
        if index < self.bits.len() {
            let w = self.bits[index];
            proof {
                lemma_test_bit(w, bit as u64);
            }
            (w & (1u64 << (bit as u64))) != 0
        } else {
            false
        }
    }
}

/// Every bit of the zero word reads back as zero.
proof fn lemma_zero_bit(b: u64)
    ensures
        (0u64 >> b) & 1 == 0u64,
{
    assert((0u64 >> b) & 1 == 0u64) by (bit_vector);
}

/// Setting bit `b` of a word makes that bit read back as one.
proof fn lemma_or_bit(w: u64, b: u64)
    requires
        b < 64,
    ensures
        ((w | (1u64 << b)) >> b) & 1 == 1u64,
{
    assert(b < 64 ==> ((w | (1u64 << b)) >> b) & 1 == 1u64) by (bit_vector);
}

/// Setting bit `b` of a word leaves every other bit as it was.
proof fn lemma_or_bit_other(w: u64, b: u64, b2: u64)
    requires
        b < 64,
        b2 < 64,
        b2 != b,
    ensures
        ((w | (1u64 << b)) >> b2) & 1 == (w >> b2) & 1,
{
    assert(b < 64 && b2 < 64 && b2 != b ==> ((w | (1u64 << b)) >> b2) & 1 == (w >> b2) & 1)
        by (bit_vector);
}

/// Masking a word with a one-bit mask is nonzero exactly when shifting
/// the word right by that bit leaves a one in the lowest position.
proof fn lemma_test_bit(w: u64, b: u64)
    requires
        b < 64,
    ensures
        ((w & (1u64 << b)) != 0) == ((w >> b) & 1 == 1u64),
{
    assert(b < 64 ==> (((w & (1u64 << b)) != 0) <==> ((w >> b) & 1 == 1u64))) by (bit_vector);
}

} // verus!
