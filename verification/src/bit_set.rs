use vstd::prelude::*;

verus! {

/// A set of small non-negative integers (witness ids), backed by an
/// unordered list of distinct ids. Interchangeable with the word-packed
/// representation in `bit_set_fast`: both expose the same operations over the
/// same mathematical view, a `Set<u32>`.
#[derive(Debug)]
pub struct BitSet {
    bit_set: Vec<u32>,
}

impl View for BitSet {
    type V = Set<u32>;

    closed spec fn view(&self) -> Set<u32> {
        Set::new(|id: u32| self.bit_set@.contains(id))
    }
}

impl Clone for BitSet {
    /// A clone has exactly the contents of the original.
    fn clone(&self) -> (r: Self)
        ensures
            r@ == self@,
    {
        let mut copied: Vec<u32> = Vec::new();
        let n = self.bit_set.len();
        for i in 0..n
            invariant
                n == self.bit_set.len(),
                copied@ == self.bit_set@.subrange(0, i as int),
        {
            copied.push(self.bit_set[i]);
            proof {
                assert(copied@ =~= self.bit_set@.subrange(0, i + 1));
            }
        }
        let r = BitSet { bit_set: copied };
        proof {
            assert(r.bit_set@ =~= self.bit_set@);
            assert(r@ =~= self@);
        }
        r
    }
}

impl BitSet {
    /// Creates the empty set.
    pub fn new() -> (s: Self)
        ensures
            s@ == Set::<u32>::empty(),
    {
        let s = Self { bit_set: Vec::new() };
        proof {
            assert(s@ =~= Set::<u32>::empty());
        }
        s
    }

    /// Membership test; mutates nothing.
    pub fn get(&self, bit: u32) -> (present: bool)
        ensures
            present == self@.contains(bit),
    {
        let n = self.bit_set.len();
        for i in 0..n
            invariant
                n == self.bit_set.len(),
                forall|j: int| 0 <= j < i ==> self.bit_set@[j] != bit,
        {
            if self.bit_set[i] == bit {
                return true;
            }
        }
        proof {
            assert(!self.bit_set@.contains(bit));
        }
        false
    }

    /// Adds one id to the set.
    pub fn insert(&mut self, bit: u32)
        ensures
            final(self)@ == old(self)@.insert(bit),
    {
        let present = self.get(bit);
        if !present {
            self.bit_set.push(bit);
        }
        proof {
            assert forall|id: u32| self@.contains(id) <==> old(self)@.insert(bit).contains(id) by {
                if self@.contains(id) {
                    let k = choose|k: int|
                        0 <= k < self.bit_set@.len() && self.bit_set@[k] == id;
                    if present || k < old(self).bit_set@.len() {
                        assert(old(self).bit_set@[k] == id);
                    }
                }
                if old(self)@.contains(id) {
                    let k = choose|k: int|
                        0 <= k < old(self).bit_set@.len() && old(self).bit_set@[k] == id;
                    assert(self.bit_set@[k] == id);
                }
                if id == bit && !present {
                    assert(self.bit_set@.last() == bit);
                }
            }
            assert(self@ =~= old(self)@.insert(bit));
        }
    }

    /// Unions another set into this one. No previously-set id is lost.
    pub fn add(&mut self, other: &BitSet)
        ensures
            final(self)@ == old(self)@.union(other@),
    {
        let n = other.bit_set.len();
        for i in 0..n
            invariant
                n == other.bit_set.len(),
                forall|id: u32|
                    self@.contains(id) <==> old(self)@.contains(id) || (exists|j: int|
                        0 <= j < i && other.bit_set@[j] == id),
        {
            let ghost pre = self@;
            let x = other.bit_set[i];
            self.insert(x);
            proof {
                assert forall|id: u32|
                    self@.contains(id) <==> old(self)@.contains(id) || (exists|j: int|
                        0 <= j < i + 1 && other.bit_set@[j] == id) by {
                    assert(self@.contains(id) <==> id == x || pre.contains(id));
                    if id == x {
                        assert(other.bit_set@[i as int] == id);
                    }
                }
            }
        }
        proof {
            assert forall|id: u32|
                self@.contains(id) <==> old(self)@.union(other@).contains(id) by {
                if other.bit_set@.contains(id) {
                    let j = choose|j: int|
                        0 <= j < other.bit_set@.len() && other.bit_set@[j] == id;
                    assert(0 <= j < n && other.bit_set@[j] == id);
                }
            }
            assert(self@ =~= old(self)@.union(other@));
        }
    }

    /// Intersects this set with another, in place. The other operand is not
    /// mutated.
    pub fn intersect(&mut self, other: &BitSet)
        ensures
            final(self)@ == old(self)@.intersect(other@),
    {
        let mut kept: Vec<u32> = Vec::new();
        let n = self.bit_set.len();
        for i in 0..n
            invariant
                n == self.bit_set.len(),
                forall|k: int|
                    0 <= k < kept@.len() ==> self.bit_set@.contains(#[trigger] kept@[k])
                        && other@.contains(kept@[k]),
                forall|j: int|
                    0 <= j < i && other@.contains(#[trigger] self.bit_set@[j])
                        ==> kept@.contains(self.bit_set@[j]),
        {
            let ghost pre = kept@;
            let id = self.bit_set[i];
            if other.get(id) {
                kept.push(id);
            }
            proof {
                assert forall|j: int|
                    0 <= j < i + 1 && other@.contains(#[trigger] self.bit_set@[j])
                        implies kept@.contains(self.bit_set@[j]) by {
                    if j < i {
                        let x = self.bit_set@[j];
                        let k = choose|k: int| 0 <= k < pre.len() && pre[k] == x;
                        assert(kept@[k] == x);
                    } else {
                        assert(kept@.last() == id);
                    }
                }
            }
        }
        self.bit_set = kept;
        proof {
            assert forall|id: u32|
                self@.contains(id) <==> old(self)@.intersect(other@).contains(id) by {
                if self.bit_set@.contains(id) {
                    let k = choose|k: int|
                        0 <= k < self.bit_set@.len() && self.bit_set@[k] == id;
                    assert(old(self).bit_set@.contains(id) && other@.contains(id));
                }
                if old(self).bit_set@.contains(id) && other@.contains(id) {
                    let j = choose|j: int|
                        0 <= j < old(self).bit_set@.len() && old(self).bit_set@[j] == id;
                    assert(0 <= j < n && other@.contains(old(self).bit_set@[j]));
                }
            }
            assert(self@ =~= old(self)@.intersect(other@));
        }
    }

    /// Whether the two sets share no id; mutates neither operand.
    pub fn is_disjoint(&self, other: &BitSet) -> (disjoint: bool)
        ensures
            disjoint == self@.disjoint(other@),
    {
        let n = self.bit_set.len();
        for i in 0..n
            invariant
                n == self.bit_set.len(),
                forall|j: int| 0 <= j < i ==> !other@.contains(#[trigger] self.bit_set@[j]),
        {
            if other.get(self.bit_set[i]) {
                proof {
                    assert(self@.contains(self.bit_set@[i as int]));
                }
                return false;
            }
        }
        proof {
            assert forall|id: u32| self@.contains(id) implies !other@.contains(id) by {
                let k = choose|k: int| 0 <= k < self.bit_set@.len() && self.bit_set@[k] == id;
            }
        }
        true
    }
}

/// Disjointness agrees with intersection: for any two sets of ids — the views
/// `is_disjoint` and `intersect` are specified over — `is_disjoint` answers
/// true exactly when intersecting them leaves nothing.
pub proof fn lemma_disjoint_iff_empty_intersection(a: Set<u32>, b: Set<u32>)
    ensures
        a.disjoint(b) <==> a.intersect(b).is_empty(),
{
    if a.disjoint(b) {
        assert(a.intersect(b) =~= Set::empty());
    }
    if a.intersect(b).is_empty() {
        assert forall|id: u32| a.contains(id) implies !b.contains(id) by {
            if b.contains(id) {
                assert(a.intersect(b).contains(id));
            }
        }
    }
}

/// Union — what `add` performs on the receiver's view — is commutative and
/// idempotent.
pub proof fn lemma_union_commutative_idempotent(a: Set<u32>, b: Set<u32>)
    ensures
        a.union(b) == b.union(a),
        a.union(a) == a,
{
    assert(a.union(b) =~= b.union(a));
    assert(a.union(a) =~= a);
}

} // verus!
