use vstd::prelude::*;

verus! {

/// Sentinel for "not yet reached": larger than any attainable rank.
pub const INFINITY: u32 = 0xffff_ffff;

/// Number of entries of `s` that still hold the `INFINITY` sentinel. The
/// searches keep their remaining-unreached counter equal to this value, which
/// is what makes their early exit sound and their counter arithmetic safe.
pub open spec fn count_unassigned(s: Seq<u32>) -> nat
    decreases s.len(),
{
    if s.len() == 0 {
        0
    } else {
        count_unassigned(s.drop_last()) + if s.last() == INFINITY {
            1nat
        } else {
            0nat
        }
    }
}

/// Overwriting one entry changes the count by the two entries' contributions.
pub proof fn lemma_count_update(s: Seq<u32>, i: int, v: u32)
    requires
        0 <= i < s.len(),
    ensures
        count_unassigned(s.update(i, v)) + (if s[i] == INFINITY {
            1nat
        } else {
            0nat
        }) == count_unassigned(s) + (if v == INFINITY {
            1nat
        } else {
            0nat
        }),
    decreases s.len(),
{
    let t = s.update(i, v);
    if i == s.len() - 1 {
        assert(t.drop_last() =~= s.drop_last());
        assert(t.last() == v);
    } else {
        assert(t.drop_last() =~= s.drop_last().update(i, v));
        assert(t.last() == s.last());
        lemma_count_update(s.drop_last(), i, v);
    }
}

/// A zero count means every entry is assigned, and conversely.
pub proof fn lemma_count_zero(s: Seq<u32>)
    ensures
        count_unassigned(s) == 0 <==> (forall|i: int| 0 <= i < s.len() ==> s[i] != INFINITY),
    decreases s.len(),
{
    if s.len() > 0 {
        lemma_count_zero(s.drop_last());
        assert(forall|i: int| 0 <= i < s.len() - 1 ==> s[i] == s.drop_last()[i]);
        if s.last() == INFINITY {
            assert(s[s.len() - 1] == INFINITY);
        }
    }
}

/// A sequence of unassigned entries counts its whole length.
pub proof fn lemma_count_all_unassigned(s: Seq<u32>)
    requires
        forall|i: int| 0 <= i < s.len() ==> s[i] == INFINITY,
    ensures
        count_unassigned(s) == s.len(),
    decreases s.len(),
{
    if s.len() > 0 {
        assert(forall|i: int| 0 <= i < s.len() - 1 ==> s.drop_last()[i] == s[i]);
        lemma_count_all_unassigned(s.drop_last());
    }
}

} // verus!
