use vstd::prelude::*;

verus! {

/// Largest number of 32-bit words a set of `u32` ids can occupy: word
/// indices run up to `u32::MAX >> 5`.
pub const MAX_WORDS: usize = 0x0800_0000;

/// A set of small non-negative integers (witness ids), packed into 32-bit
/// words: id `b` lives in bit `b mod 32` of word `b div 32`. Interchangeable
/// with the sparse representation in `bit_set`: both expose the same
/// operations over the same mathematical view, a `Set<u32>`.
#[derive(Debug)]
pub struct BitSet {
    bit_set: Vec<u32>,
}

/// Position of the lowest set bit of a nonzero word.
fn lowest_set_bit(w: u32) -> (j: u32)
    requires
        w != 0,
    ensures
        j < 32,
        (w >> j) & 1 == 1,
{
    proof {
        assert(w >> 0u32 == w) by (bit_vector);
    }
    let mut v = w;
    let mut j: u32 = 0;
    while v & 1 == 0
        invariant
            v == w >> j,
            v != 0,
            j <= 31,
        decreases v,
    {
        proof {
            assert((w >> j) != 0 && (w >> j) & 1 == 0 && j <= 31 ==> j <= 30) by (bit_vector);
            assert(j <= 30 ==> (w >> j) >> 1 == w >> (j + 1)) by (bit_vector);
            assert((w >> j) != 0 && (w >> j) & 1 == 0 ==> (((w >> j) >> 1) != 0 && ((w >> j) >> 1)
                < (w >> j))) by (bit_vector);
        }
        v = v >> 1;
        j = j + 1;
    }
    proof {
        assert(v & 1 != 0 ==> v & 1 == 1) by (bit_vector);
    }
    j
}

/// Whether id `b` is set in the packed words.
spec fn spec_contains(words: Seq<u32>, b: u32) -> bool {
    ((b >> 5) as int) < words.len() && words[(b >> 5) as int] & (1u32 << (b & 31)) != 0
}

/// Loop invariant of `add`: the first `i` words are already combined.
spec fn union_upto(cur: Seq<u32>, start: Seq<u32>, other: Seq<u32>, i: int) -> bool {
    forall|b: u32|
        spec_contains(cur, b) <==> (spec_contains(start, b) || (((b >> 5) as int) < i
            && spec_contains(other, b)))
}

/// Loop invariant of `intersect`: the first `i` words are already combined.
spec fn intersect_upto(cur: Seq<u32>, start: Seq<u32>, other: Seq<u32>, i: int) -> bool {
    forall|b: u32|
        spec_contains(cur, b) <==> (spec_contains(start, b) && (((b >> 5) as int) >= i
            || spec_contains(other, b)))
}

impl View for BitSet {
    type V = Set<u32>;

    closed spec fn view(&self) -> Set<u32> {
        Set::new(|b: u32| spec_contains(self.bit_set@, b))
    }
}

impl BitSet {
    /// Creates the empty set.
    pub fn new() -> (s: Self)
        ensures
            s@ == Set::<u32>::empty(),
    {
        let s = Self { bit_set: Vec::new() };
        proof {
            assert(s@ =~= Set::<u32>::empty());
        }
        s
    }

    /// Membership test; mutates nothing.
    pub fn get(&self, bit: u32) -> (present: bool)
        ensures
            present == self@.contains(bit),
    {
        let index = (bit >> 5) as usize;
        let bit_index = bit & 31;
        if index >= self.bit_set.len() {
            return false;
        }
        proof {
            assert(bit & 31 < 32) by (bit_vector);
        }
        let present = self.bit_set[index] & (1u32 << bit_index) != 0;
        present
    }

    /// Grows the word array to at least `words` words; the contents do not
    /// change.
    fn grow(&mut self, words: usize)
        ensures
            final(self).bit_set@.len() >= words,
            final(self).bit_set@.len() >= old(self).bit_set@.len(),
            forall|k: int|
                0 <= k < old(self).bit_set@.len() ==> final(self).bit_set@[k] == old(
                    self,
                ).bit_set@[k],
            forall|b: u32|
                spec_contains(final(self).bit_set@, b) == spec_contains(old(self).bit_set@, b),
    {
        while self.bit_set.len() < words
            invariant
                old(self).bit_set@.len() <= self.bit_set@.len(),
                forall|k: int|
                    0 <= k < old(self).bit_set@.len() ==> self.bit_set@[k] == old(
                        self,
                    ).bit_set@[k],
                forall|b: u32|
                    spec_contains(self.bit_set@, b) == spec_contains(old(self).bit_set@, b),
            decreases words - self.bit_set@.len(),
        {
            let ghost pre = self.bit_set@;
            self.bit_set.push(0u32);
            proof {
                assert forall|b: u32|
                    spec_contains(self.bit_set@, b) == spec_contains(pre, b) by {
                    if ((b >> 5) as int) == pre.len() {
                        assert(0u32 & (1u32 << (b & 31)) == 0) by (bit_vector);
                    }
                }
            }
        }
    }

    /// Adds one id to the set, growing the backing storage as needed.
    pub fn insert(&mut self, bit: u32)
        ensures
            final(self)@ == old(self)@.insert(bit),
    {
        proof {
            assert((bit >> 5) < 0x0800_0000u32 && bit & 31 < 32) by (bit_vector);
        }
        let index = (bit >> 5) as usize;
        let bit_index = bit & 31;
        self.grow(index + 1);
        let ghost pre = self.bit_set@;
        let w = self.bit_set[index];
        self.bit_set[index] = w | (1u32 << bit_index);
        proof {
            assert forall|b: u32|
                self@.contains(b) == old(self)@.insert(bit).contains(b) by {
                assert(self@.contains(b) == spec_contains(self.bit_set@, b));
                assert(old(self)@.contains(b) == spec_contains(old(self).bit_set@, b));
                assert(spec_contains(pre, b) == spec_contains(old(self).bit_set@, b));
                assert(b == bit <==> ((b >> 5) == (bit >> 5) && (b & 31) == (bit & 31)))
                    by (bit_vector);
                if (b >> 5) == (bit >> 5) {
                    assert((w | (1u32 << (bit & 31))) & (1u32 << (b & 31)) != 0 <==> ((b & 31) == (
                    bit & 31) || w & (1u32 << (b & 31)) != 0)) by (bit_vector);
                } else {
                    assert(spec_contains(self.bit_set@, b) == spec_contains(pre, b));
                }
            }
            assert(self@ =~= old(self)@.insert(bit));
        }
    }

    /// Unions another set into this one. No previously-set id is lost.
    pub fn add(&mut self, other: &BitSet)
        ensures
            final(self)@ == old(self)@.union(other@),
    {
        let n = if other.bit_set.len() < MAX_WORDS {
            other.bit_set.len()
        } else {
            MAX_WORDS
        };
        self.grow(n);
        let ghost start = self.bit_set@;
        proof {
            assert(union_upto(self.bit_set@, start, other.bit_set@, 0));
        }
        for i in 0..n
            invariant
                n <= other.bit_set@.len(),
                n <= self.bit_set@.len(),
                self.bit_set@.len() == start.len(),
                forall|k: int| i <= k < start.len() ==> self.bit_set@[k] == start[k],
                union_upto(self.bit_set@, start, other.bit_set@, i as int),
        {
            let ghost pre = self.bit_set@;
            let w1 = self.bit_set[i];
            let w2 = other.bit_set[i];
            self.bit_set[i] = w1 | w2;
            proof {
                assert forall|b: u32|
                    spec_contains(self.bit_set@, b) <==> (spec_contains(start, b) || (((b >> 5)
                        as int) < i + 1 && spec_contains(other.bit_set@, b))) by {
                    let wi = (b >> 5) as int;
                    assert(spec_contains(pre, b) <==> (spec_contains(start, b) || (wi < i
                        && spec_contains(other.bit_set@, b))));
                    if wi == i {
                        assert(pre[wi] == start[wi]);
                        assert((w1 | w2) & (1u32 << (b & 31)) != 0 <==> (w1 & (1u32 << (b & 31))
                            != 0 || w2 & (1u32 << (b & 31)) != 0)) by (bit_vector);
                    } else {
                        assert(spec_contains(self.bit_set@, b) == spec_contains(pre, b));
                    }
                }
                assert(union_upto(self.bit_set@, start, other.bit_set@, i + 1));
            }
        }
        proof {
            assert forall|b: u32|
                self@.contains(b) == old(self)@.union(other@).contains(b) by {
                assert(spec_contains(self.bit_set@, b) <==> (spec_contains(start, b) || (((b >> 5)
                    as int) < n && spec_contains(other.bit_set@, b))));
                assert(spec_contains(start, b) == spec_contains(old(self).bit_set@, b));
                if spec_contains(other.bit_set@, b) {
                    assert((b >> 5) < 0x0800_0000u32) by (bit_vector);
                    assert(((b >> 5) as int) < n);
                }
            }
            assert(self@ =~= old(self)@.union(other@));
        }
    }

    /// Intersects this set with another, in place. The other operand is not
    /// mutated.
    pub fn intersect(&mut self, other: &BitSet)
        ensures
            final(self)@ == old(self)@.intersect(other@),
    {
        let n = self.bit_set.len();
        let ghost start = self.bit_set@;
        proof {
            assert(intersect_upto(self.bit_set@, start, other.bit_set@, 0));
        }
        for i in 0..n
            invariant
                n == self.bit_set@.len(),
                n == start.len(),
                forall|k: int| i <= k < start.len() ==> self.bit_set@[k] == start[k],
                intersect_upto(self.bit_set@, start, other.bit_set@, i as int),
        {
            let ghost pre = self.bit_set@;
            let w1 = self.bit_set[i];
            if i < other.bit_set.len() {
                let w2 = other.bit_set[i];
                self.bit_set[i] = w1 & w2;
                proof {
                    assert forall|b: u32|
                        spec_contains(self.bit_set@, b) <==> (spec_contains(start, b) && (((b
                            >> 5) as int) >= i + 1 || spec_contains(other.bit_set@, b))) by {
                        let wi = (b >> 5) as int;
                        assert(spec_contains(pre, b) <==> (spec_contains(start, b) && (wi >= i
                            || spec_contains(other.bit_set@, b))));
                        if wi == i {
                            assert(pre[wi] == start[wi]);
                            assert((w1 & w2) & (1u32 << (b & 31)) != 0 <==> (w1 & (1u32 << (b
                                & 31)) != 0 && w2 & (1u32 << (b & 31)) != 0)) by (bit_vector);
                        } else {
                            assert(spec_contains(self.bit_set@, b) == spec_contains(pre, b));
                        }
                    }
                    assert(intersect_upto(self.bit_set@, start, other.bit_set@, i + 1));
                }
            } else {
                self.bit_set[i] = 0u32;
                proof {
                    assert forall|b: u32|
                        spec_contains(self.bit_set@, b) <==> (spec_contains(start, b) && (((b
                            >> 5) as int) >= i + 1 || spec_contains(other.bit_set@, b))) by {
                        let wi = (b >> 5) as int;
                        assert(spec_contains(pre, b) <==> (spec_contains(start, b) && (wi >= i
                            || spec_contains(other.bit_set@, b))));
                        if wi == i {
                            assert(0u32 & (1u32 << (b & 31)) == 0) by (bit_vector);
                            assert(!spec_contains(other.bit_set@, b));
                        } else {
                            assert(spec_contains(self.bit_set@, b) == spec_contains(pre, b));
                        }
                    }
                    assert(intersect_upto(self.bit_set@, start, other.bit_set@, i + 1));
                }
            }
        }
        proof {
            assert forall|b: u32|
                self@.contains(b) == old(self)@.intersect(other@).contains(b) by {
                assert(spec_contains(self.bit_set@, b) <==> (spec_contains(start, b) && (((b >> 5)
                    as int) >= n || spec_contains(other.bit_set@, b))));
                assert(spec_contains(start, b) == spec_contains(old(self).bit_set@, b));
            }
            assert(self@ =~= old(self)@.intersect(other@));
        }
    }

    /// Whether the two sets share no id; mutates neither operand.
    pub fn is_disjoint(&self, other: &BitSet) -> (disjoint: bool)
        ensures
            disjoint == self@.disjoint(other@),
    {
        let shorter = if self.bit_set.len() < other.bit_set.len() {
            self.bit_set.len()
        } else {
            other.bit_set.len()
        };
        let min_len = if shorter < MAX_WORDS {
            shorter
        } else {
            MAX_WORDS
        };
        for i in 0..min_len
            invariant
                min_len <= self.bit_set@.len(),
                min_len <= other.bit_set@.len(),
                min_len <= MAX_WORDS,
                min_len < MAX_WORDS ==> (min_len == self.bit_set@.len() || min_len
                    == other.bit_set@.len()),
                forall|k: int| 0 <= k < i ==> self.bit_set@[k] & other.bit_set@[k] == 0,
        {
            let w1 = self.bit_set[i];
            let w2 = other.bit_set[i];
            let w = w1 & w2;
            if w != 0 {
                // The position of a common bit names a shared id.
                let j = lowest_set_bit(w);
                let witness = ((i as u32) << 5) | j;
                proof {
                    let iu = i as u32;
                    assert(iu < 0x0800_0000 && j < 32 ==> (((iu << 5) | j) >> 5 == iu && ((iu << 5)
                        | j) & 31 == j)) by (bit_vector);
                    assert(w == w1 & w2 && (w >> j) & 1 == 1 && j < 32 ==> (w1 & (1u32 << j) != 0
                        && w2 & (1u32 << j) != 0)) by (bit_vector);
                    assert(spec_contains(self.bit_set@, witness));
                    assert(spec_contains(other.bit_set@, witness));
                    assert(self@.contains(witness) && other@.contains(witness));
                }
                return false;
            }
        }
        proof {
            assert forall|b: u32| self@.contains(b) implies !other@.contains(b) by {
                assert((b >> 5) < 0x0800_0000u32) by (bit_vector);
                if ((b >> 5) as int) < min_len {
                    let k = (b >> 5) as int;
                    let w1 = self.bit_set@[k];
                    let w2 = other.bit_set@[k];
                    assert(w1 & w2 == 0 && w1 & (1u32 << (b & 31)) != 0 ==> w2 & (1u32 << (b
                        & 31)) == 0) by (bit_vector);
                }
            }
        }
        true
    }
}

impl Clone for BitSet {
    /// A clone has exactly the contents of the original.
    fn clone(&self) -> (r: Self)
        ensures
            r@ == self@,
    {
        let mut copied: Vec<u32> = Vec::new();
        let n = self.bit_set.len();
        for i in 0..n
            invariant
                n == self.bit_set.len(),
                copied@ == self.bit_set@.subrange(0, i as int),
        {
            copied.push(self.bit_set[i]);
            proof {
                assert(copied@ =~= self.bit_set@.subrange(0, i + 1));
            }
        }
        proof {
            assert(copied@ =~= self.bit_set@);
        }
        let r = BitSet { bit_set: copied };
        proof {
            assert(r@ =~= self@);
        }
        r
    }
}

} // verus!
