use vstd::prelude::*;

use crate::algorithm_l::{list_wf, seq_has_table};
use crate::bit_set_fast::BitSet;
use crate::chain::Chain;
use crate::counting::{count_unassigned, lemma_count_update, lemma_count_zero, INFINITY};
use crate::expression::Expression;
use crate::function::{Function, NUM_FUNCTIONS};

verus! {

/// Room of the witness log: ids are 32-bit, and the log stops growing just
/// below the id range's end. No usable chain comes near this many pair
/// combinations.
pub const MAX_WITNESSES: usize = 0xffff_fffe;

/// Some step of the chain computes the table `v`.
pub open spec fn chain_has_table(chain: Chain, v: int) -> bool {
    exists|i: int|
        0 <= i < chain.expressions@.len() && (#[trigger] chain.expressions@[i]).function.0 == v
}

/// Upper bound 0 belongs exactly to the zero constant and the chain's own
/// functions.
pub open spec fn zero_bounds_are_chain(bounds: Seq<u32>, chain: Chain) -> bool {
    forall|v: int|
        0 <= v < bounds.len() ==> ((bounds[v] == 0) <==> (v == 0 || chain_has_table(chain, v)))
}

/// Every witness id in the footprint indexes into the witness log.
pub open spec fn footprint_in_range(fp: Set<u32>, n: int) -> bool {
    forall|id: u32| fp.contains(id) ==> id < n
}

/// A registered first expression: a binary combination of the functions at
/// two chain positions, the earlier position as the left operand, whose value
/// is new (not the zero constant and not already in the chain).
pub open spec fn first_expression_ok(chain: Chain, e: Expression) -> bool {
    &&& e.is_combination()
    &&& e.valid_operands()
    &&& exists|a: int, b: int|
        0 <= a < b < chain.expressions@.len() && (#[trigger] chain.expressions@[a]).function
            == e.left() && (#[trigger] chain.expressions@[b]).function == e.right()
    &&& e.spec_eval() != 0
    &&& !chain_has_table(chain, e.spec_eval() as int)
}

/// The combination's value is nothing new: the zero constant or a table the
/// chain already computes.
pub open spec fn combo_is_stale(chain: Chain, e: Expression) -> bool {
    e.spec_eval() == 0 || chain_has_table(chain, e.spec_eval() as int)
}

/// Every combination of the pair of chain positions `a < b` is either stale
/// or sits in the witness log.
pub open spec fn pair_registered(fe: Seq<Expression>, chain: Chain, a: int, b: int) -> bool {
    let g = chain.expressions@[a].function;
    let h = chain.expressions@[b].function;
    &&& combo_is_stale(chain, Expression::And(g, h)) || fe.contains(Expression::And(g, h))
    &&& combo_is_stale(chain, Expression::Or(g, h)) || fe.contains(Expression::Or(g, h))
    &&& combo_is_stale(chain, Expression::Xor(g, h)) || fe.contains(Expression::Xor(g, h))
    &&& combo_is_stale(chain, Expression::ButNot(g, h)) || fe.contains(Expression::ButNot(g, h))
    &&& combo_is_stale(chain, Expression::NotBut(g, h)) || fe.contains(Expression::NotBut(g, h))
}

/// Every pair of chain positions is registered: each of its combinations is
/// stale or in the witness log.
pub open spec fn all_pairs_registered(fe: Seq<Expression>, chain: Chain) -> bool {
    forall|a: int, b: int|
        0 <= a < b < chain.expressions@.len() ==> pair_registered(fe, chain, a, b)
}

/// A logged combination stays logged when the log only grows in place.
proof fn lemma_contains_preserved(pre: Seq<Expression>, post: Seq<Expression>, e: Expression)
    requires
        pre.contains(e),
        post.len() >= pre.len(),
        forall|i: int| 0 <= i < pre.len() ==> post[i] == pre[i],
    ensures
        post.contains(e),
{
    let i = choose|i: int| 0 <= i < pre.len() && pre[i] == e;
    assert(post[i] == e);
}

/// A registered pair stays registered when the log only grows in place.
proof fn lemma_pair_registered_preserved(
    pre: Seq<Expression>,
    post: Seq<Expression>,
    chain: Chain,
    a: int,
    b: int,
)
    requires
        0 <= a < b < chain.expressions@.len(),
        pair_registered(pre, chain, a, b),
        post.len() >= pre.len(),
        forall|i: int| 0 <= i < pre.len() ==> post[i] == pre[i],
    ensures
        pair_registered(post, chain, a, b),
{
    let g = chain.expressions@[a].function;
    let h = chain.expressions@[b].function;
    if pre.contains(Expression::And(g, h)) {
        lemma_contains_preserved(pre, post, Expression::And(g, h));
    }
    if pre.contains(Expression::Or(g, h)) {
        lemma_contains_preserved(pre, post, Expression::Or(g, h));
    }
    if pre.contains(Expression::Xor(g, h)) {
        lemma_contains_preserved(pre, post, Expression::Xor(g, h));
    }
    if pre.contains(Expression::ButNot(g, h)) {
        lemma_contains_preserved(pre, post, Expression::ButNot(g, h));
    }
    if pre.contains(Expression::NotBut(g, h)) {
        lemma_contains_preserved(pre, post, Expression::NotBut(g, h));
    }
}

/// Every combination of the pair of chain positions `a < b` is stale: no gate
/// over the pair computes anything new.
pub open spec fn pair_exhausted(chain: Chain, a: int, b: int) -> bool {
    let g = chain.expressions@[a].function;
    let h = chain.expressions@[b].function;
    &&& combo_is_stale(chain, Expression::And(g, h))
    &&& combo_is_stale(chain, Expression::Or(g, h))
    &&& combo_is_stale(chain, Expression::Xor(g, h))
    &&& combo_is_stale(chain, Expression::ButNot(g, h))
    &&& combo_is_stale(chain, Expression::NotBut(g, h))
}

/// One sequence begins with the other: nothing of the prefix moved.
pub open spec fn seq_prefix_of(a: Seq<Function>, b: Seq<Function>) -> bool {
    a.len() <= b.len() && forall|m: int| 0 <= m < a.len() ==> a[m] == b[m]
}

/// Outcome of the upper-bound search: for every function value, an upper
/// bound on its gate count (`INFINITY` while unresolved) and the set of
/// first-expression witness ids its derivation depends on (its footprint);
/// the witness log of all first expressions; the current frontier of
/// functions per bound; and per-bound counts.
pub struct Result {
    pub upper_bounds: Vec<u32>,
    pub first_expressions: Vec<Expression>,
    pub footprints: Vec<BitSet>,
    pub lists: Vec<Vec<Function>>,
    pub stats: Vec<usize>,
}

impl Result {
    /// Internal consistency: arrays cover the whole function space, frontier
    /// lists agree with the current bounds, per-bound counts agree with the
    /// lists (bound 0 also counts the zero constant, which sits in no list),
    /// footprints only name registered witnesses, cost-0 functions have empty
    /// footprints, and every resolved costly function depends on at least one
    /// witness.
    pub open spec fn wf(self) -> bool {
        &&& self.upper_bounds@.len() == NUM_FUNCTIONS
        &&& self.footprints@.len() == NUM_FUNCTIONS
        &&& self.first_expressions@.len() <= 0xffff_ffff
        &&& 1 <= self.lists@.len() <= INFINITY
        &&& self.stats@.len() == self.lists@.len()
        &&& forall|rr: int|
            0 <= rr < self.lists@.len() ==> list_wf(
                (#[trigger] self.lists@[rr])@,
                self.upper_bounds@,
                rr,
            )
        &&& forall|rr: int|
            0 <= rr < self.lists@.len() ==> self.stats@[rr] == (#[trigger] self.lists@[rr])@.len()
                + if rr == 0 {
                1int
            } else {
                0int
            }
        &&& forall|v: int|
            0 <= v < NUM_FUNCTIONS ==> footprint_in_range(
                (#[trigger] self.footprints@[v])@,
                self.first_expressions@.len() as int,
            )
        &&& forall|v: int|
            0 <= v < NUM_FUNCTIONS && self.upper_bounds@[v] == 0 ==> (
            #[trigger] self.footprints@[v])@ == Set::<u32>::empty()
        &&& forall|v: int|
            0 <= v < NUM_FUNCTIONS && 1 <= self.upper_bounds@[v] < INFINITY ==> !(
            #[trigger] self.footprints@[v])@.is_empty()
        &&& forall|v: int|
            0 <= v < NUM_FUNCTIONS && #[trigger] self.upper_bounds@[v] != INFINITY ==> (
            self.upper_bounds@[v] as int) < self.lists@.len()
        &&& forall|v: int|
            0 < v < NUM_FUNCTIONS && #[trigger] self.upper_bounds@[v] == 0 ==> seq_has_table(
                self.lists@[0int]@,
                v as u32,
            )
        &&& forall|v: int|
            0 <= v < NUM_FUNCTIONS && 1 <= #[trigger] self.upper_bounds@[v]
                < INFINITY ==> seq_has_table(self.lists@[self.upper_bounds@[v] as int]@, v as u32)
    }
}

/// Removes every entry computing the same table as `f`, keeping the others in
/// order.
fn remove_function(list: &mut Vec<Function>, f: Function)
    ensures
        forall|m: int| 0 <= m < final(list)@.len() ==> (#[trigger] final(list)@[m]).0 != f.0,
        forall|m: int|
            0 <= m < final(list)@.len() ==> old(list)@.contains(#[trigger] final(list)@[m]),
        forall|m: int|
            0 <= m < old(list)@.len() && (#[trigger] old(list)@[m]).0 != f.0
                ==> final(list)@.contains(old(list)@[m]),
{
    let mut kept: Vec<Function> = Vec::new();
    let n = list.len();
    for i in 0..n
        invariant
            n == list.len(),
            forall|m: int| 0 <= m < kept@.len() ==> (#[trigger] kept@[m]).0 != f.0,
            forall|m: int| 0 <= m < kept@.len() ==> list@.contains(#[trigger] kept@[m]),
            forall|m: int|
                0 <= m < i && (#[trigger] list@[m]).0 != f.0 ==> kept@.contains(list@[m]),
    {
        let x = list[i];
        let ghost pre_kept = kept@;
        if x.0 != f.0 {
            kept.push(x);
            proof {
                assert(list@[i as int] == x);
            }
        }
        proof {
            assert forall|m: int|
                0 <= m < i + 1 && (#[trigger] list@[m]).0 != f.0 implies kept@.contains(
                list@[m],
            ) by {
                if m < i {
                    let idx = choose|idx: int|
                        0 <= idx < pre_kept.len() && pre_kept[idx] == list@[m];
                    assert(kept@[idx] == list@[m]);
                } else {
                    assert(kept@.last() == list@[m]);
                }
            }
        }
    }
    *list = kept;
}


/// One inner step of the search: considers one candidate value reachable at
/// cost `u` with dependency footprint `fp`. An unresolved value is assigned
/// bound `u` and footprint `fp`; a value whose bound is strictly worse is
/// retracted from its old frontier and reinserted at `u`, its footprint
/// replaced; a value already at exactly `u` merges `fp` into its footprint
/// (several equally good witness sets are kept for downstream selection); a
/// value with a better bound is untouched. Returns whether a frontier grew.
pub fn update_candidate(
    result: &mut Result,
    remaining: &mut u32,
    expr: Expression,
    u: u32,
    fp: &BitSet,
) -> (pushed: bool)
    requires
        old(result).wf(),
        *old(remaining) == count_unassigned(old(result).upper_bounds@),
        expr.is_combination(),
        expr.valid_operands(),
        1 <= u < INFINITY,
        (u as int) < old(result).lists@.len(),
        footprint_in_range(fp@, old(result).first_expressions@.len() as int),
        !fp@.is_empty(),
    ensures
        final(result).wf(),
        *final(remaining) == count_unassigned(final(result).upper_bounds@),
        *final(remaining) <= *old(remaining),
        final(result).lists@.len() == old(result).lists@.len(),
        final(result).first_expressions@ == old(result).first_expressions@,
        // Bounds never increase over the run; a bound that changes drops to
        // exactly `u` from something strictly worse.
        forall|v: int|
            0 <= v < NUM_FUNCTIONS ==> final(result).upper_bounds@[v] <= old(
            result,
            ).upper_bounds@[v],
        forall|v: int|
            0 <= v < NUM_FUNCTIONS ==> (final(result).upper_bounds@[v] == old(
            result,
            ).upper_bounds@[v] || (final(result).upper_bounds@[v] == u && old(
            result,
            ).upper_bounds@[v] > u)),
        // Cost 0 belongs to exactly the same functions as before.
        forall|v: int|
            0 <= v < NUM_FUNCTIONS ==> ((final(result).upper_bounds@[v] == 0) <==> (old(
            result,
            ).upper_bounds@[v] == 0)),
        // Only the frontiers at `u` and at the value's previous (strictly
        // worse) bound change.
        forall|rr: int|
            0 <= rr < old(result).lists@.len() && rr != u && (old(
                result,
            ).upper_bounds@[expr.spec_eval() as int] <= u || rr != old(
                result,
            ).upper_bounds@[expr.spec_eval() as int]) ==> final(result).lists@[rr] == old(
                result,
            ).lists@[rr],
        // No frontier but the previous bound's loses anything.
        forall|rr: int|
            0 <= rr < old(result).lists@.len() && (old(
                result,
            ).upper_bounds@[expr.spec_eval() as int] <= u || rr != old(
                result,
            ).upper_bounds@[expr.spec_eval() as int]) ==> seq_prefix_of(
                (old(result).lists@[rr])@,
                (final(result).lists@[rr])@,
            ),
        // A step that grows no frontier moves nothing between frontiers.
        !pushed ==> final(result).lists@ == old(result).lists@,
{
    let f = expr.evaluate();
    let fi = f.index();
    proof {
        expr.lemma_eval_valid();
    }
    let current = result.upper_bounds[fi];
    if current == INFINITY {
        // U6, first case: newly resolved.
        let ghost pre = *result;
        result.upper_bounds[fi] = u;
        proof {
            lemma_count_update(pre.upper_bounds@, fi as int, u);
            lemma_count_zero(pre.upper_bounds@);
            assert(*remaining >= 1);
        }
        *remaining = *remaining - 1;
        result.footprints[fi] = fp.clone();
        result.lists[u as usize].push(f);
        let n = result.lists[u as usize].len();
        result.stats[u as usize] = n;
        proof {
            let post = *result;
            assert(post.lists@ == pre.lists@.update(u as int, post.lists@[u as int]));
            assert(post.lists@[u as int]@ =~= pre.lists@[u as int]@.push(f));
            assert forall|rr: int| 0 <= rr < post.lists@.len() implies list_wf(
                (#[trigger] post.lists@[rr])@,
                post.upper_bounds@,
                rr,
            ) by {
                assert(list_wf(pre.lists@[rr]@, pre.upper_bounds@, rr));
                let lst = post.lists@[rr]@;
                assert forall|m: int|
                    0 <= m < lst.len() implies (#[trigger] lst[m]).valid()
                    && post.upper_bounds@[lst[m].0 as int] == rr by {
                    if rr == u as int && m == lst.len() - 1 {
                        assert(lst[m] == f);
                    } else {
                        assert(lst[m] == pre.lists@[rr]@[m]);
                        assert(pre.upper_bounds@[lst[m].0 as int] == rr);
                        assert(rr < INFINITY);
                        assert(lst[m].0 as int != fi as int);
                    }
                }
            }
            assert forall|v: int| 0 <= v < NUM_FUNCTIONS implies footprint_in_range(
                (#[trigger] post.footprints@[v])@,
                post.first_expressions@.len() as int,
            ) by {
                if v != fi as int {
                    assert(post.footprints@[v] == pre.footprints@[v]);
                    assert(footprint_in_range(
                        pre.footprints@[v]@,
                        pre.first_expressions@.len() as int,
                    ));
                }
            }
            assert forall|v: int|
                0 <= v < NUM_FUNCTIONS && post.upper_bounds@[v] == 0 implies (
            #[trigger] post.footprints@[v])@ == Set::<u32>::empty() by {
                assert(v != fi as int);
                assert(post.footprints@[v] == pre.footprints@[v]);
            }
            assert forall|v: int|
                0 <= v < NUM_FUNCTIONS && 1 <= post.upper_bounds@[v] < INFINITY implies !(
            #[trigger] post.footprints@[v])@.is_empty() by {
                if v != fi as int {
                    assert(post.footprints@[v] == pre.footprints@[v]);
                    assert(1 <= pre.upper_bounds@[v] < INFINITY);
                } else {
                    assert(post.footprints@[v]@ == fp@);
                }
            }
            assert forall|rr: int|
                0 <= rr < post.lists@.len() implies post.stats@[rr] == (
            #[trigger] post.lists@[rr])@.len() + (if rr == 0 {
                1int
            } else {
                0int
            }) by {
                if rr != u as int && rr != pre.upper_bounds@[fi as int] {
                    assert(post.lists@[rr] == pre.lists@[rr]);
                    assert(post.stats@[rr] == pre.stats@[rr]);
                }
            }
            assert forall|v: int|
                0 <= v < NUM_FUNCTIONS && #[trigger] post.upper_bounds@[v] != INFINITY implies (
            post.upper_bounds@[v] as int) < post.lists@.len() by {
                if v != fi as int {
                    assert(post.upper_bounds@[v] == pre.upper_bounds@[v]);
                }
            }
            assert forall|v: int|
                0 < v < NUM_FUNCTIONS && #[trigger] post.upper_bounds@[v] == 0 implies seq_has_table(
                post.lists@[0int]@,
                v as u32,
            ) by {
                assert(v != fi as int);
                assert(pre.upper_bounds@[v] == 0);
                let idx = choose|idx: int|
                    0 <= idx < pre.lists@[0int]@.len() && (#[trigger] pre.lists@[0int]@[idx]).0
                        == v as u32;
                assert(post.lists@[0int] == pre.lists@[0int]);
                assert(post.lists@[0int]@[idx].0 == v as u32);
            }
            assert forall|v: int|
                0 <= v < NUM_FUNCTIONS && 1 <= #[trigger] post.upper_bounds@[v]
                    < INFINITY implies seq_has_table(
                post.lists@[post.upper_bounds@[v] as int]@,
                v as u32,
            ) by {
                if v == fi as int {
                    assert(post.lists@[u as int]@.last().0 == v as u32);
                } else {
                    let ell = pre.upper_bounds@[v] as int;
                    assert(1 <= ell < INFINITY);
                    let idx = choose|idx: int|
                        0 <= idx < pre.lists@[ell]@.len() && (#[trigger] pre.lists@[ell]@[idx]).0
                            == v as u32;
                    if ell == u as int {
                        assert(post.lists@[ell]@[idx].0 == v as u32);
                    } else {
                        assert(post.lists@[ell] == pre.lists@[ell]);
                        assert(post.lists@[ell]@[idx].0 == v as u32);
                    }
                }
            }
            assert(post.wf());
        }
        true
    } else if current > u {
        // U6, second case: strictly improved; retract and reinsert.
        let ghost pre = *result;
        result.upper_bounds[fi] = u;
        proof {
            lemma_count_update(pre.upper_bounds@, fi as int, u);
        }
        result.footprints[fi] = fp.clone();
        let prev = current as usize;
        remove_function(&mut result.lists[prev], f);
        let np = result.lists[prev].len();
        result.stats[prev] = np;
        result.lists[u as usize].push(f);
        let n = result.lists[u as usize].len();
        result.stats[u as usize] = n;
        proof {
            let post = *result;
            let kept = post.lists@[prev as int]@;
            assert(post.lists@[u as int]@ =~= pre.lists@[u as int]@.push(f));
            assert forall|rr: int| 0 <= rr < post.lists@.len() implies list_wf(
                (#[trigger] post.lists@[rr])@,
                post.upper_bounds@,
                rr,
            ) by {
                assert(list_wf(pre.lists@[rr]@, pre.upper_bounds@, rr));
                let lst = post.lists@[rr]@;
                assert forall|m: int|
                    0 <= m < lst.len() implies (#[trigger] lst[m]).valid()
                    && post.upper_bounds@[lst[m].0 as int] == rr by {
                    if rr == prev as int {
                        assert(pre.lists@[prev as int]@.contains(lst[m]));
                        let mm = choose|mm: int|
                            0 <= mm < pre.lists@[prev as int]@.len() && pre.lists@[prev
                                as int]@[mm] == lst[m];
                        assert(pre.upper_bounds@[lst[m].0 as int] == rr);
                        assert(lst[m].0 != f.0);
                    } else if rr == u as int && m == lst.len() - 1 {
                        assert(lst[m] == f);
                    } else {
                        assert(lst[m] == pre.lists@[rr]@[m]);
                        assert(pre.upper_bounds@[lst[m].0 as int] == rr);
                        assert(rr < INFINITY);
                        assert(rr != prev as int);
                        assert(lst[m].0 as int != fi as int);
                    }
                }
            }
            assert forall|v: int| 0 <= v < NUM_FUNCTIONS implies footprint_in_range(
                (#[trigger] post.footprints@[v])@,
                post.first_expressions@.len() as int,
            ) by {
                if v != fi as int {
                    assert(post.footprints@[v] == pre.footprints@[v]);
                    assert(footprint_in_range(
                        pre.footprints@[v]@,
                        pre.first_expressions@.len() as int,
                    ));
                }
            }
            assert forall|v: int|
                0 <= v < NUM_FUNCTIONS && post.upper_bounds@[v] == 0 implies (
            #[trigger] post.footprints@[v])@ == Set::<u32>::empty() by {
                assert(v != fi as int);
                assert(post.footprints@[v] == pre.footprints@[v]);
            }
            assert forall|v: int|
                0 <= v < NUM_FUNCTIONS && 1 <= post.upper_bounds@[v] < INFINITY implies !(
            #[trigger] post.footprints@[v])@.is_empty() by {
                if v != fi as int {
                    assert(post.footprints@[v] == pre.footprints@[v]);
                    assert(1 <= pre.upper_bounds@[v] < INFINITY);
                } else {
                    assert(post.footprints@[v]@ == fp@);
                }
            }
            assert forall|rr: int|
                0 <= rr < post.lists@.len() implies post.stats@[rr] == (
            #[trigger] post.lists@[rr])@.len() + (if rr == 0 {
                1int
            } else {
                0int
            }) by {
                if rr != u as int && rr != pre.upper_bounds@[fi as int] {
                    assert(post.lists@[rr] == pre.lists@[rr]);
                    assert(post.stats@[rr] == pre.stats@[rr]);
                }
            }
            assert forall|v: int|
                0 <= v < NUM_FUNCTIONS && #[trigger] post.upper_bounds@[v] != INFINITY implies (
            post.upper_bounds@[v] as int) < post.lists@.len() by {
                if v != fi as int {
                    assert(post.upper_bounds@[v] == pre.upper_bounds@[v]);
                }
            }
            assert forall|v: int|
                0 < v < NUM_FUNCTIONS && #[trigger] post.upper_bounds@[v] == 0 implies seq_has_table(
                post.lists@[0int]@,
                v as u32,
            ) by {
                assert(v != fi as int);
                assert(pre.upper_bounds@[v] == 0);
                let idx = choose|idx: int|
                    0 <= idx < pre.lists@[0int]@.len() && (#[trigger] pre.lists@[0int]@[idx]).0
                        == v as u32;
                assert(post.lists@[0int] == pre.lists@[0int]);
                assert(post.lists@[0int]@[idx].0 == v as u32);
            }
            assert forall|v: int|
                0 <= v < NUM_FUNCTIONS && 1 <= #[trigger] post.upper_bounds@[v]
                    < INFINITY implies seq_has_table(
                post.lists@[post.upper_bounds@[v] as int]@,
                v as u32,
            ) by {
                if v == fi as int {
                    assert(post.lists@[u as int]@.last().0 == v as u32);
                } else {
                    let ell = pre.upper_bounds@[v] as int;
                    assert(1 <= ell < INFINITY);
                    let idx = choose|idx: int|
                        0 <= idx < pre.lists@[ell]@.len() && (#[trigger] pre.lists@[ell]@[idx]).0
                            == v as u32;
                    let w = pre.lists@[ell]@[idx];
                    if ell == prev as int {
                        assert(w.0 != f.0);
                        assert(kept.contains(w));
                        let idx2 = choose|idx2: int| 0 <= idx2 < kept.len() && kept[idx2] == w;
                        assert(post.lists@[ell]@[idx2].0 == v as u32);
                    } else if ell == u as int {
                        assert(post.lists@[ell]@[idx].0 == v as u32);
                    } else {
                        assert(post.lists@[ell] == pre.lists@[ell]);
                        assert(post.lists@[ell]@[idx].0 == v as u32);
                    }
                }
            }
            assert(post.wf());
            assert forall|rr: int|
                0 <= rr < pre.lists@.len() && rr != u && rr != prev implies post.lists@[rr]
                == pre.lists@[rr] by {}
        }
        true
    } else if current == u {
        // U6, third case: another equally good witness set; merge.
        let ghost pre = *result;
        result.footprints[fi].add(fp);
        proof {
            let post = *result;
            assert forall|v: int|
                0 <= v < NUM_FUNCTIONS implies footprint_in_range(
                (#[trigger] post.footprints@[v])@,
                post.first_expressions@.len() as int,
            ) by {
                assert(footprint_in_range(
                    pre.footprints@[v]@,
                    pre.first_expressions@.len() as int,
                ));
                if v == fi as int {
                    assert forall|id2: u32|
                        post.footprints@[v]@.contains(id2) implies id2
                        < post.first_expressions@.len() by {
                        assert(pre.footprints@[v]@.contains(id2) || fp@.contains(id2));
                    }
                } else {
                    assert(post.footprints@[v] == pre.footprints@[v]);
                }
            }
            assert forall|v: int|
                0 <= v < NUM_FUNCTIONS && post.upper_bounds@[v] == 0 implies (
            #[trigger] post.footprints@[v])@ == Set::<u32>::empty() by {
                assert(v != fi as int);
                assert(post.footprints@[v] == pre.footprints@[v]);
            }
            assert forall|v: int|
                0 <= v < NUM_FUNCTIONS && 1 <= post.upper_bounds@[v] < INFINITY implies !(
            #[trigger] post.footprints@[v])@.is_empty() by {
                if v != fi as int {
                    assert(post.footprints@[v] == pre.footprints@[v]);
                    assert(1 <= pre.upper_bounds@[v] < INFINITY);
                } else {
                    let x = choose|x: u32| fp@.contains(x);
                    assert(post.footprints@[v]@.contains(x));
                }
            }
            assert forall|v: int|
                0 < v < NUM_FUNCTIONS && #[trigger] post.upper_bounds@[v] == 0 implies seq_has_table(
                post.lists@[0int]@,
                v as u32,
            ) by {
                assert(pre.upper_bounds@[v] == 0);
            }
            assert forall|v: int|
                0 <= v < NUM_FUNCTIONS && 1 <= #[trigger] post.upper_bounds@[v]
                    < INFINITY implies seq_has_table(
                post.lists@[post.upper_bounds@[v] as int]@,
                v as u32,
            ) by {
                assert(1 <= pre.upper_bounds@[v] < INFINITY);
                assert(post.lists@ == pre.lists@);
            }
            assert(post.wf());
        }
        false
    } else {
        false
    }
}


/// Footprint union reasoning for one operand pair.
proof fn lemma_union_keeps_range_and_member(a: Set<u32>, b: Set<u32>, n: int)
    requires
        footprint_in_range(a, n),
        footprint_in_range(b, n),
        !b.is_empty(),
    ensures
        footprint_in_range(a.union(b), n),
        !a.union(b).is_empty(),
{
    assert forall|id: u32| a.union(b).contains(id) implies id < n by {
        assert(a.contains(id) || b.contains(id));
    }
    let x = choose|x: u32| b.contains(x);
    assert(a.union(b).contains(x));
}

/// A prefix of a prefix is a prefix.
proof fn lemma_prefix_trans(a: Seq<Function>, b: Seq<Function>, c: Seq<Function>)
    requires
        seq_prefix_of(a, b),
        seq_prefix_of(b, c),
    ensures
        seq_prefix_of(a, c),
{
}

/// Considers all five combinations of one pair of reached functions at rank
/// `r`: their cost is `r` when the operands' footprints are disjoint (the two
/// sub-derivations share nothing) and `r - 1` when they overlap (the overlap
/// is latent shareable structure, so the heuristic assumes one gate can be
/// saved); the candidate footprint is the union either way. Returns whether
/// any frontier grew.
pub fn combine_pair(result: &mut Result, remaining: &mut u32, g: Function, h: Function, r: u32) -> (pushed: bool)
    requires
        old(result).wf(),
        *old(remaining) == count_unassigned(old(result).upper_bounds@),
        g.valid(),
        h.valid(),
        2 <= r < INFINITY,
        (r as int) < old(result).lists@.len(),
        old(result).upper_bounds@[g.0 as int] + old(result).upper_bounds@[h.0 as int] + 1 == r as int,
        1 <= old(result).upper_bounds@[h.0 as int],
    ensures
        final(result).wf(),
        *final(remaining) == count_unassigned(final(result).upper_bounds@),
        *final(remaining) <= *old(remaining),
        final(result).lists@.len() == old(result).lists@.len(),
        final(result).first_expressions@ == old(result).first_expressions@,
        forall|v: int|
            0 <= v < NUM_FUNCTIONS ==> final(result).upper_bounds@[v] <= old(
            result,
            ).upper_bounds@[v],
        forall|v: int|
            0 <= v < NUM_FUNCTIONS ==> ((final(result).upper_bounds@[v] == 0) <==> (old(
            result,
            ).upper_bounds@[v] == 0)),
        forall|rr: int|
            0 <= rr < old(result).lists@.len() && rr <= r - 2 ==> final(result).lists@[rr] == old(
                result,
            ).lists@[rr],
        forall|rr: int|
            0 <= rr < old(result).lists@.len() && rr <= r - 1 ==> seq_prefix_of(
                (old(result).lists@[rr])@,
                (final(result).lists@[rr])@,
            ),
        !pushed ==> final(result).lists@ == old(result).lists@,
        // The documented cost rule, exactly: a changed bound drops to `r`
        // when the operands' footprints are disjoint and to `r - 1` when they
        // overlap, never otherwise.
        forall|v: int|
            0 <= v < NUM_FUNCTIONS ==> (final(result).upper_bounds@[v] == old(
            result,
            ).upper_bounds@[v] || (old(result).upper_bounds@[v] > final(result).upper_bounds@[v]
                && final(result).upper_bounds@[v] == (if old(result).footprints@[g.0
                as int]@.disjoint(old(result).footprints@[h.0 as int]@) {
                r
            } else {
                (r - 1) as u32
            }))),
{
    let gx = g.index();
    let hx = h.index();
    // U4/U5: the tentative cost and the candidate footprint.
    let fp_disjoint = result.footprints[gx].is_disjoint(&result.footprints[hx]);
    let u = if fp_disjoint {
        r
    } else {
        r - 1
    };
    let mut v_fp = result.footprints[gx].clone();
    v_fp.add(&result.footprints[hx]);
    proof {
        assert(old(result).upper_bounds@[h.0 as int] < INFINITY);
        assert(!result.footprints@[hx as int]@.is_empty());
        lemma_union_keeps_range_and_member(
            result.footprints@[gx as int]@,
            result.footprints@[hx as int]@,
            result.first_expressions@.len() as int,
        );
    }
    let ghost s0 = *result;
    let p1 = update_candidate(result, remaining, Expression::And(g, h), u, &v_fp);
    let ghost s1 = *result;
    let p2 = update_candidate(result, remaining, Expression::Or(g, h), u, &v_fp);
    let ghost s2 = *result;
    let p3 = update_candidate(result, remaining, Expression::Xor(g, h), u, &v_fp);
    let ghost s3 = *result;
    let p4 = update_candidate(result, remaining, Expression::ButNot(g, h), u, &v_fp);
    let ghost s4 = *result;
    let p5 = update_candidate(result, remaining, Expression::NotBut(g, h), u, &v_fp);
    proof {
        assert forall|rr: int|
            0 <= rr < old(result).lists@.len() && rr <= r - 2 implies result.lists@[rr] == old(
            result,
        ).lists@[rr] by {
            assert(s1.lists@[rr] == s0.lists@[rr]);
            assert(s2.lists@[rr] == s1.lists@[rr]);
            assert(s3.lists@[rr] == s2.lists@[rr]);
            assert(s4.lists@[rr] == s3.lists@[rr]);
            assert(result.lists@[rr] == s4.lists@[rr]);
        }
        assert forall|rr: int|
            0 <= rr < old(result).lists@.len() && rr <= r - 1 implies seq_prefix_of(
            (old(result).lists@[rr])@,
            (result.lists@[rr])@,
        ) by {
            lemma_prefix_trans(s0.lists@[rr]@, s1.lists@[rr]@, s2.lists@[rr]@);
            lemma_prefix_trans(s0.lists@[rr]@, s2.lists@[rr]@, s3.lists@[rr]@);
            lemma_prefix_trans(s0.lists@[rr]@, s3.lists@[rr]@, s4.lists@[rr]@);
            lemma_prefix_trans(s0.lists@[rr]@, s4.lists@[rr]@, result.lists@[rr]@);
        }
        if !(p1 || p2 || p3 || p4 || p5) {
            assert(s1.lists@ == s0.lists@);
            assert(s2.lists@ == s1.lists@);
            assert(s3.lists@ == s2.lists@);
            assert(s4.lists@ == s3.lists@);
            assert(result.lists@ == s4.lists@);
        }
    }
    p1 || p2 || p3 || p4 || p5
}


/// A step that changes no bound between zero and nonzero keeps the zero-bound
/// characterization.
proof fn lemma_zero_bounds_preserved(pre: Seq<u32>, post: Seq<u32>, chain: Chain)
    requires
        pre.len() == post.len(),
        zero_bounds_are_chain(pre, chain),
        forall|v: int| 0 <= v < pre.len() ==> ((post[v] == 0) <==> (pre[v] == 0)),
    ensures
        zero_bounds_are_chain(post, chain),
{
}

/// U1, second half: registers one candidate combination of two chain
/// functions as a first expression. A value that the chain already computes
/// (or the zero constant) is skipped; any other value gets upper bound 1, a
/// fresh witness id, and that id joins its footprint — a value produced by
/// several pairs accumulates all their ids.
fn register_first(result: &mut Result, remaining: &mut u32, chain: &Chain, expr: Expression)
    requires
        old(result).wf(),
        *old(remaining) == count_unassigned(old(result).upper_bounds@),
        zero_bounds_are_chain(old(result).upper_bounds@, *chain),
        expr.is_combination(),
        expr.valid_operands(),
        exists|a: int, b: int|
            0 <= a < b < chain.expressions@.len() && (#[trigger] chain.expressions@[a]).function
                == expr.left() && (#[trigger] chain.expressions@[b]).function == expr.right(),
        2 <= old(result).lists@.len(),
        forall|v: int|
            0 <= v < NUM_FUNCTIONS
                ==> (old(result).upper_bounds@[v] == 0 || old(result).upper_bounds@[v] == 1 || old(
            result,
            ).upper_bounds@[v] == INFINITY),
        forall|i: int|
            0 <= i < old(result).first_expressions@.len() ==> first_expression_ok(
                *chain,
                #[trigger] old(result).first_expressions@[i],
            ),
        forall|i: int|
            0 <= i < old(result).first_expressions@.len() ==> old(result).upper_bounds@[(
            #[trigger] old(result).first_expressions@[i]).spec_eval() as int] == 1,
    ensures
        final(result).wf(),
        *final(remaining) == count_unassigned(final(result).upper_bounds@),
        zero_bounds_are_chain(final(result).upper_bounds@, *chain),
        final(result).lists@.len() == old(result).lists@.len(),
        final(result).lists@[0int] == old(result).lists@[0int],
        forall|v: int|
            0 <= v < NUM_FUNCTIONS
                ==> (final(result).upper_bounds@[v] == 0 || final(result).upper_bounds@[v] == 1
                || final(result).upper_bounds@[v] == INFINITY),
        forall|i: int|
            0 <= i < final(result).first_expressions@.len() ==> first_expression_ok(
                *chain,
                #[trigger] final(result).first_expressions@[i],
            ),
        // A registered value has upper bound exactly 1.
        forall|i: int|
            0 <= i < final(result).first_expressions@.len() ==> final(result).upper_bounds@[(
            #[trigger] final(result).first_expressions@[i]).spec_eval() as int] == 1,
        // The witness log only grows, in place.
        final(result).first_expressions@.len() >= old(result).first_expressions@.len(),
        forall|i: int|
            0 <= i < old(result).first_expressions@.len()
                ==> final(result).first_expressions@[i] == old(result).first_expressions@[i],
        // While the log has room, the candidate ends up stale or logged.
        old(result).first_expressions@.len() < MAX_WITNESSES ==> (combo_is_stale(*chain, expr)
            || final(result).first_expressions@.contains(expr)),
{
    let f = expr.evaluate();
    let fi = f.index();
    proof {
        expr.lemma_eval_valid();
    }
    let current = result.upper_bounds[fi];
    if current == 0 {
        // Nothing new: the zero constant or a table the chain computes.
        proof {
            assert(fi as int == 0 || chain_has_table(*chain, fi as int));
            assert(combo_is_stale(*chain, expr));
        }
        return;
    }
    // The witness log is capped at the id range; no usable chain comes near
    // this many pair combinations.
    if result.first_expressions.len() < MAX_WITNESSES {
        let ghost pre = *result;
        let id = result.first_expressions.len() as u32;
        if current == INFINITY {
            result.upper_bounds[fi] = 1;
            proof {
                lemma_count_update(pre.upper_bounds@, fi as int, 1);
                lemma_count_zero(pre.upper_bounds@);
            }
            *remaining = *remaining - 1;
        }
        result.lists[1].push(f);
        let n = result.lists[1].len();
        result.stats[1] = n;
        result.footprints[fi].insert(id);
        result.first_expressions.push(expr);
        proof {
            let post = *result;
            assert(post.upper_bounds@[fi as int] == 1);
            assert forall|rr: int| 0 <= rr < post.lists@.len() implies list_wf(
                (#[trigger] post.lists@[rr])@,
                post.upper_bounds@,
                rr,
            ) by {
                assert(list_wf(pre.lists@[rr]@, pre.upper_bounds@, rr));
                let lst = post.lists@[rr]@;
                assert forall|m: int|
                    0 <= m < lst.len() implies (#[trigger] lst[m]).valid()
                    && post.upper_bounds@[lst[m].0 as int] == rr by {
                    if rr == 1 && m == lst.len() - 1 {
                        assert(lst[m] == f);
                    } else {
                        assert(lst[m] == pre.lists@[rr]@[m]);
                        assert(pre.upper_bounds@[lst[m].0 as int] == rr);
                        if current == INFINITY {
                            assert(rr < INFINITY);
                            assert(lst[m].0 as int != fi as int);
                        }
                    }
                }
            }
            assert forall|rr: int|
                0 <= rr < post.lists@.len() implies post.stats@[rr] == (
            #[trigger] post.lists@[rr])@.len() + (if rr == 0 {
                1int
            } else {
                0int
            }) by {
                if rr != 1 {
                    assert(post.lists@[rr] == pre.lists@[rr]);
                    assert(post.stats@[rr] == pre.stats@[rr]);
                }
            }
            assert forall|v: int| 0 <= v < NUM_FUNCTIONS implies footprint_in_range(
                (#[trigger] post.footprints@[v])@,
                post.first_expressions@.len() as int,
            ) by {
                assert(footprint_in_range(
                    pre.footprints@[v]@,
                    pre.first_expressions@.len() as int,
                ));
                if v == fi as int {
                    assert(post.footprints@[v]@ == pre.footprints@[v]@.insert(id));
                    assert forall|id2: u32|
                        post.footprints@[v]@.contains(id2) implies id2
                        < post.first_expressions@.len() by {
                        assert(id2 == id || pre.footprints@[v]@.contains(id2));
                    }
                } else {
                    assert(post.footprints@[v] == pre.footprints@[v]);
                }
            }
            assert forall|v: int|
                0 <= v < NUM_FUNCTIONS && post.upper_bounds@[v] == 0 implies (
            #[trigger] post.footprints@[v])@ == Set::<u32>::empty() by {
                assert(v != fi as int);
                assert(post.footprints@[v] == pre.footprints@[v]);
                assert(pre.upper_bounds@[v] == 0);
            }
            assert forall|v: int|
                0 <= v < NUM_FUNCTIONS && 1 <= post.upper_bounds@[v] < INFINITY implies !(
            #[trigger] post.footprints@[v])@.is_empty() by {
                if v != fi as int {
                    assert(post.footprints@[v] == pre.footprints@[v]);
                    assert(1 <= pre.upper_bounds@[v] < INFINITY);
                } else {
                    assert(post.footprints@[v]@.contains(id));
                }
            }
            assert forall|v: int|
                0 <= v < NUM_FUNCTIONS && #[trigger] post.upper_bounds@[v] != INFINITY implies (
            post.upper_bounds@[v] as int) < post.lists@.len() by {
                if v != fi as int {
                    assert(post.upper_bounds@[v] == pre.upper_bounds@[v]);
                }
            }
            assert forall|v: int|
                0 < v < NUM_FUNCTIONS && #[trigger] post.upper_bounds@[v] == 0 implies seq_has_table(
                post.lists@[0int]@,
                v as u32,
            ) by {
                assert(v != fi as int);
                assert(pre.upper_bounds@[v] == 0);
                let idx = choose|idx: int|
                    0 <= idx < pre.lists@[0int]@.len() && (#[trigger] pre.lists@[0int]@[idx]).0
                        == v as u32;
                assert(post.lists@[0int] == pre.lists@[0int]);
                assert(post.lists@[0int]@[idx].0 == v as u32);
            }
            assert forall|v: int|
                0 <= v < NUM_FUNCTIONS && 1 <= #[trigger] post.upper_bounds@[v]
                    < INFINITY implies seq_has_table(
                post.lists@[post.upper_bounds@[v] as int]@,
                v as u32,
            ) by {
                if v == fi as int {
                    assert(post.lists@[1int]@.last().0 == v as u32);
                } else {
                    let ell = pre.upper_bounds@[v] as int;
                    assert(1 <= ell < INFINITY);
                    let idx = choose|idx: int|
                        0 <= idx < pre.lists@[ell]@.len() && (#[trigger] pre.lists@[ell]@[idx]).0
                            == v as u32;
                    if ell == 1 {
                        assert(post.lists@[ell]@[idx].0 == v as u32);
                    } else {
                        assert(post.lists@[ell] == pre.lists@[ell]);
                        assert(post.lists@[ell]@[idx].0 == v as u32);
                    }
                }
            }
            assert(post.wf());
            assert forall|v: int|
                0 <= v < NUM_FUNCTIONS implies ((post.upper_bounds@[v] == 0) <==> (
            pre.upper_bounds@[v] == 0)) by {}
            lemma_zero_bounds_preserved(pre.upper_bounds@, post.upper_bounds@, *chain);
            assert forall|i: int|
                0 <= i < post.first_expressions@.len() implies first_expression_ok(
                *chain,
                #[trigger] post.first_expressions@[i],
            ) by {
                if i < pre.first_expressions@.len() {
                    assert(post.first_expressions@[i] == pre.first_expressions@[i]);
                    assert(first_expression_ok(*chain, pre.first_expressions@[i]));
                } else {
                    assert(post.first_expressions@[i] == expr);
                    assert(pre.upper_bounds@[fi as int] != 0);
                    assert(expr.spec_eval() != 0 && !chain_has_table(
                        *chain,
                        expr.spec_eval() as int,
                    ));
                }
            }
            assert(post.first_expressions@.last() == expr);
            assert(post.first_expressions@.contains(expr));
            assert forall|i: int|
                0 <= i < post.first_expressions@.len() implies post.upper_bounds@[(
            #[trigger] post.first_expressions@[i]).spec_eval() as int] == 1 by {
                if i < pre.first_expressions@.len() {
                    let e = pre.first_expressions@[i];
                    assert(post.first_expressions@[i] == e);
                    assert(first_expression_ok(*chain, e));
                    e.lemma_eval_valid();
                    assert(pre.upper_bounds@[e.spec_eval() as int] == 1);
                } else {
                    assert(post.first_expressions@[i] == expr);
                    assert(post.upper_bounds@[fi as int] == 1);
                }
            }
        }
    }
}


/// Estimates, for every function value, how many gates suffice to derive it
/// from what the chain computes so far, and which witnesses the derivation
/// leans on. Cost 0 is the chain's own functions plus the zero constant;
/// every pairwise combination of chain functions with a new value is
/// registered once as a first expression with its own witness id and cost 1.
/// Later ranks combine already-resolved functions: a candidate costs a full
/// extra gate when the operands' footprints share nothing, one less when they
/// overlap (the overlap is latent shareable structure). Bounds only ever
/// improve; equally cheap witness sets are merged. The unresolved counter
/// stays exactly equal to the number of unresolved values, so it cannot run
/// below zero; the search stops once it reaches zero or once no later rank
/// can change anything.
pub fn find_upper_bounds_and_footprints(chain: &Chain) -> (result: Result)
    requires
        chain.wf(),
    ensures
        result.wf(),
        result.upper_bounds@[0] == 0,
        forall|i: int|
            0 <= i < chain.expressions@.len() ==> result.upper_bounds@[(
            #[trigger] chain.expressions@[i]).function.0 as int] == 0,
        zero_bounds_are_chain(result.upper_bounds@, *chain),
        forall|i: int|
            0 <= i < result.first_expressions@.len() ==> first_expression_ok(
                *chain,
                #[trigger] result.first_expressions@[i],
            ),
        // A registered value keeps upper bound exactly 1 to the end: later
        // ranks can never improve on it.
        forall|i: int|
            0 <= i < result.first_expressions@.len() ==> result.upper_bounds@[(
            #[trigger] result.first_expressions@[i]).spec_eval() as int] == 1,
        // While the witness log has room (it always does in practice), every
        // combination of two chain positions is either stale — the zero
        // constant or a table the chain already computes — or in the log:
        // registration misses nothing.
        result.first_expressions@.len() < MAX_WITNESSES ==> all_pairs_registered(
            result.first_expressions@,
            *chain,
        ),
        // Exit certificate: the search ran until nothing was unresolved, or
        // until no pair of nonempty frontiers could feed a rank it had not
        // already processed (the processed ranks are exactly
        // 1 .. lists.len() - 1), or until the rank horizon reached the size
        // of the function space.
        count_unassigned(result.upper_bounds@) == 0 || result.lists@.len() >= NUM_FUNCTIONS || (
        forall|rr1: int, rr2: int|
            0 <= rr1 < result.lists@.len() && 0 <= rr2 < result.lists@.len() && (
            #[trigger] result.lists@[rr1])@.len() > 0 && (#[trigger] result.lists@[rr2])@.len()
                > 0 ==> rr1 + rr2 + 1 < result.lists@.len()),
{
    // U1. Initialize: every value unresolved with an empty footprint.
    let mut upper_bounds: Vec<u32> = Vec::new();
    while upper_bounds.len() < NUM_FUNCTIONS
        invariant
            upper_bounds@.len() <= NUM_FUNCTIONS,
            forall|i: int| 0 <= i < upper_bounds@.len() ==> upper_bounds@[i] == INFINITY,
        decreases NUM_FUNCTIONS - upper_bounds@.len(),
    {
        upper_bounds.push(INFINITY);
    }
    let mut footprints: Vec<BitSet> = Vec::new();
    while footprints.len() < NUM_FUNCTIONS
        invariant
            footprints@.len() <= NUM_FUNCTIONS,
            forall|i: int|
                0 <= i < footprints@.len() ==> (#[trigger] footprints@[i])@ == Set::<u32>::empty(),
        decreases NUM_FUNCTIONS - footprints@.len(),
    {
        footprints.push(BitSet::new());
    }
    let mut remaining: u32 = 0x10000;
    proof {
        crate::counting::lemma_count_all_unassigned(upper_bounds@);
    }
    // The zero constant costs nothing.
    let ghost pre = upper_bounds@;
    upper_bounds[0] = 0;
    proof {
        lemma_count_update(pre, 0, 0);
    }
    remaining = remaining - 1;
    // The chain's own functions cost nothing; each distinct one joins the
    // bound-0 frontier.
    let mut list0: Vec<Function> = Vec::new();
    let num_steps = chain.expressions.len();
    for k in 0..num_steps
        invariant
            chain.wf(),
            num_steps == chain.expressions@.len(),
            upper_bounds@.len() == NUM_FUNCTIONS,
            remaining == count_unassigned(upper_bounds@),
            list0@.len() + remaining == 0xffff,
            upper_bounds@[0] == 0,
            forall|v: int|
                0 <= v < NUM_FUNCTIONS ==> (upper_bounds@[v] == 0 <==> (v == 0 || exists|m: int|
                    0 <= m < k && (#[trigger] chain.expressions@[m]).function.0 == v)),
            forall|v: int|
                0 <= v < NUM_FUNCTIONS ==> (upper_bounds@[v] == 0 || upper_bounds@[v]
                    == INFINITY),
            list_wf(list0@, upper_bounds@, 0),
            forall|m: int|
                0 <= m < k ==> ((#[trigger] chain.expressions@[m]).function.0 == 0
                    || seq_has_table(list0@, chain.expressions@[m].function.0)),
    {
        let f = chain.expressions[k].function;
        let fi = f.index();
        if upper_bounds[fi] == INFINITY {
            let ghost pre = upper_bounds@;
            upper_bounds[fi] = 0;
            proof {
                lemma_count_update(pre, fi as int, 0);
                lemma_count_zero(pre);
            }
            remaining = remaining - 1;
            let ghost pre_list = list0@;
            list0.push(f);
            proof {
                assert forall|m: int|
                    0 <= m < k + 1 implies ((#[trigger] chain.expressions@[m]).function.0 == 0
                        || seq_has_table(list0@, chain.expressions@[m].function.0)) by {
                    if m == k {
                        assert(list0@.last().0 == chain.expressions@[m].function.0);
                    } else if chain.expressions@[m].function.0 != 0 {
                        let idx = choose|idx: int|
                            0 <= idx < pre_list.len() && (#[trigger] pre_list[idx]).0
                                == chain.expressions@[m].function.0;
                        assert(list0@[idx].0 == chain.expressions@[m].function.0);
                    }
                }
                assert forall|v: int| 0 <= v < NUM_FUNCTIONS implies (upper_bounds@[v] == 0 <==> (
                v == 0 || exists|m: int|
                    0 <= m < k + 1 && (#[trigger] chain.expressions@[m]).function.0 == v)) by {
                    if v == fi as int {
                        assert(chain.expressions@[k as int].function.0 == v);
                        assert(upper_bounds@[v] == 0);
                    } else {
                        assert(upper_bounds@[v] == pre[v]);
                        if v != 0 && pre[v] == 0 {
                            let m = choose|m: int|
                                0 <= m < k && (#[trigger] chain.expressions@[m]).function.0 == v;
                            assert(0 <= m < k + 1 && chain.expressions@[m].function.0 == v);
                        }
                        if exists|m: int|
                            0 <= m < k + 1 && (#[trigger] chain.expressions@[m]).function.0 == v {
                            let m = choose|m: int|
                                0 <= m < k + 1 && (#[trigger] chain.expressions@[m]).function.0
                                    == v;
                            if m < k {
                                assert(pre[v] == 0);
                            } else {
                                assert(chain.expressions@[k as int].function.0 == fi);
                            }
                        }
                    }
                }
            }
        } else {
            proof {
                assert forall|m: int|
                    0 <= m < k + 1 implies ((#[trigger] chain.expressions@[m]).function.0 == 0
                        || seq_has_table(list0@, chain.expressions@[m].function.0)) by {
                    if m == k && chain.expressions@[m].function.0 != 0 {
                        assert(upper_bounds@[fi as int] == 0);
                        let m2 = choose|m2: int|
                            0 <= m2 < k && (#[trigger] chain.expressions@[m2]).function.0 == fi;
                        assert(chain.expressions@[m2].function.0 == chain.expressions@[m].function.0);
                        let idx = choose|idx: int|
                            0 <= idx < list0@.len() && (#[trigger] list0@[idx]).0
                                == chain.expressions@[m2].function.0;
                        assert(list0@[idx].0 == chain.expressions@[m].function.0);
                    }
                }
                assert forall|v: int| 0 <= v < NUM_FUNCTIONS implies (upper_bounds@[v] == 0 <==> (
                v == 0 || exists|m: int|
                    0 <= m < k + 1 && (#[trigger] chain.expressions@[m]).function.0 == v)) by {
                    assert(upper_bounds@[v] == 0 <==> (v == 0 || exists|m: int|
                        0 <= m < k && (#[trigger] chain.expressions@[m]).function.0 == v));
                    if v == fi as int {
                        assert(chain.expressions@[k as int].function.0 == v);
                        assert(upper_bounds@[v] != INFINITY);
                        assert(upper_bounds@[v] == 0);
                    } else {
                        if v != 0 && upper_bounds@[v] == 0 {
                            let m = choose|m: int|
                                0 <= m < k && (#[trigger] chain.expressions@[m]).function.0 == v;
                            assert(0 <= m < k + 1 && chain.expressions@[m].function.0 == v);
                        }
                        if exists|m: int|
                            0 <= m < k + 1 && (#[trigger] chain.expressions@[m]).function.0 == v {
                            let m = choose|m: int|
                                0 <= m < k + 1 && (#[trigger] chain.expressions@[m]).function.0
                                    == v;
                            if m < k {
                                assert(upper_bounds@[v] == 0);
                            } else {
                                assert(chain.expressions@[k as int].function.0 == fi);
                            }
                        }
                    }
                }
            }
        }
    }
    proof {
        assert forall|v: int|
            0 <= v < upper_bounds@.len() implies ((upper_bounds@[v] == 0) <==> (v == 0
            || chain_has_table(*chain, v))) by {
            assert(upper_bounds@[v] == 0 <==> (v == 0 || exists|m: int|
                0 <= m < num_steps && (#[trigger] chain.expressions@[m]).function.0 == v));
        }
        assert(zero_bounds_are_chain(upper_bounds@, *chain));
    }
    let num_seeds = list0.len();
    let mut lists: Vec<Vec<Function>> = Vec::new();
    lists.push(list0);
    lists.push(Vec::new());
    let mut stats: Vec<usize> = Vec::new();
    stats.push(num_seeds + 1);
    stats.push(0);
    let first_expressions: Vec<Expression> = Vec::new();
    let mut result = Result { upper_bounds, first_expressions, footprints, lists, stats };
    proof {
        assert(result.wf());
    }
    let ghost seeds0 = result.lists@[0int]@;
    proof {
        assert forall|m: int|
            0 <= m < chain.expressions@.len() implies ((
        #[trigger] chain.expressions@[m]).function.0 == 0 || seq_has_table(
            seeds0,
            chain.expressions@[m].function.0,
        )) by {}
    }
    // U1, second half: all pairwise combinations of chain functions become
    // bound-1 candidates, each with a fresh witness id.
    let mut pj: usize = 0;
    while pj < num_steps
        invariant
            chain.wf(),
            num_steps == chain.expressions@.len(),
            result.wf(),
            remaining == count_unassigned(result.upper_bounds@),
            zero_bounds_are_chain(result.upper_bounds@, *chain),
            result.lists@.len() == 2,
            result.lists@[0int]@ == seeds0,
            forall|v: int|
                0 <= v < NUM_FUNCTIONS ==> (result.upper_bounds@[v] == 0
                    || result.upper_bounds@[v] == 1 || result.upper_bounds@[v] == INFINITY),
            forall|i: int|
                0 <= i < result.first_expressions@.len() ==> first_expression_ok(
                    *chain,
                    #[trigger] result.first_expressions@[i],
                ),
            forall|i: int|
                0 <= i < result.first_expressions@.len() ==> result.upper_bounds@[(
                #[trigger] result.first_expressions@[i]).spec_eval() as int] == 1,
            result.first_expressions@.len() < MAX_WITNESSES ==> (forall|a: int, b: int|
                0 <= a < b < num_steps && a < pj ==> pair_registered(
                    result.first_expressions@,
                    *chain,
                    a,
                    b,
                )),
        decreases num_steps - pj,
    {
        let mut pk: usize = pj + 1;
        while pk < num_steps
            invariant
                chain.wf(),
                num_steps == chain.expressions@.len(),
                pj < num_steps,
                pj < pk,
                result.wf(),
                remaining == count_unassigned(result.upper_bounds@),
                zero_bounds_are_chain(result.upper_bounds@, *chain),
                result.lists@.len() == 2,
                result.lists@[0int]@ == seeds0,
                forall|v: int|
                    0 <= v < NUM_FUNCTIONS ==> (result.upper_bounds@[v] == 0
                        || result.upper_bounds@[v] == 1 || result.upper_bounds@[v] == INFINITY),
                forall|i: int|
                    0 <= i < result.first_expressions@.len() ==> first_expression_ok(
                        *chain,
                        #[trigger] result.first_expressions@[i],
                    ),
                forall|i: int|
                    0 <= i < result.first_expressions@.len() ==> result.upper_bounds@[(
                    #[trigger] result.first_expressions@[i]).spec_eval() as int] == 1,
                result.first_expressions@.len() < MAX_WITNESSES ==> (forall|a: int, b: int|
                    0 <= a < b < num_steps && a < pj ==> pair_registered(
                        result.first_expressions@,
                        *chain,
                        a,
                        b,
                    )),
                result.first_expressions@.len() < MAX_WITNESSES ==> (forall|b: int|
                    pj < b < pk ==> pair_registered(
                        result.first_expressions@,
                        *chain,
                        pj as int,
                        b,
                    )),
            decreases num_steps - pk,
        {
            let g = chain.expressions[pj].function;
            let h = chain.expressions[pk].function;
            proof {
                assert(chain.expressions@[pj as int].function == g);
                assert(chain.expressions@[pk as int].function == h);
                assert(0 <= pj < pk < chain.expressions@.len());
            }
            let ghost t0 = result.first_expressions@;
            register_first(&mut result, &mut remaining, chain, Expression::And(g, h));
            let ghost t1 = result.first_expressions@;
            register_first(&mut result, &mut remaining, chain, Expression::Or(g, h));
            let ghost t2 = result.first_expressions@;
            register_first(&mut result, &mut remaining, chain, Expression::Xor(g, h));
            let ghost t3 = result.first_expressions@;
            register_first(&mut result, &mut remaining, chain, Expression::ButNot(g, h));
            let ghost t4 = result.first_expressions@;
            register_first(&mut result, &mut remaining, chain, Expression::NotBut(g, h));
            proof {
                let t5 = result.first_expressions@;
                if t5.len() < MAX_WITNESSES {
                    // The log only grew, so every earlier step had room too.
                    assert(t0.len() <= t1.len() <= t2.len() <= t3.len() <= t4.len() <= t5.len());
                    assert forall|i: int| 0 <= i < t0.len() implies t5[i] == t0[i] by {
                        assert(t1[i] == t0[i]);
                        assert(t2[i] == t1[i]);
                        assert(t3[i] == t2[i]);
                        assert(t4[i] == t3[i]);
                        assert(t5[i] == t4[i]);
                    }
                    assert(combo_is_stale(*chain, Expression::And(g, h)) || t1.contains(
                        Expression::And(g, h),
                    ));
                    if t1.contains(Expression::And(g, h)) {
                        assert forall|i: int| 0 <= i < t1.len() implies t5[i] == t1[i] by {
                            assert(t2[i] == t1[i]);
                            assert(t3[i] == t2[i]);
                            assert(t4[i] == t3[i]);
                            assert(t5[i] == t4[i]);
                        }
                        lemma_contains_preserved(t1, t5, Expression::And(g, h));
                    }
                    assert(combo_is_stale(*chain, Expression::Or(g, h)) || t2.contains(
                        Expression::Or(g, h),
                    ));
                    if t2.contains(Expression::Or(g, h)) {
                        assert forall|i: int| 0 <= i < t2.len() implies t5[i] == t2[i] by {
                            assert(t3[i] == t2[i]);
                            assert(t4[i] == t3[i]);
                            assert(t5[i] == t4[i]);
                        }
                        lemma_contains_preserved(t2, t5, Expression::Or(g, h));
                    }
                    assert(combo_is_stale(*chain, Expression::Xor(g, h)) || t3.contains(
                        Expression::Xor(g, h),
                    ));
                    if t3.contains(Expression::Xor(g, h)) {
                        assert forall|i: int| 0 <= i < t3.len() implies t5[i] == t3[i] by {
                            assert(t4[i] == t3[i]);
                            assert(t5[i] == t4[i]);
                        }
                        lemma_contains_preserved(t3, t5, Expression::Xor(g, h));
                    }
                    assert(combo_is_stale(*chain, Expression::ButNot(g, h)) || t4.contains(
                        Expression::ButNot(g, h),
                    ));
                    if t4.contains(Expression::ButNot(g, h)) {
                        assert forall|i: int| 0 <= i < t4.len() implies t5[i] == t4[i] by {}
                        lemma_contains_preserved(t4, t5, Expression::ButNot(g, h));
                    }
                    assert(combo_is_stale(*chain, Expression::NotBut(g, h)) || t5.contains(
                        Expression::NotBut(g, h),
                    ));
                    assert(pair_registered(t5, *chain, pj as int, pk as int));
                    assert forall|a: int, b: int|
                        0 <= a < b < num_steps && a < pj implies pair_registered(
                        t5,
                        *chain,
                        a,
                        b,
                    ) by {
                        lemma_pair_registered_preserved(t0, t5, *chain, a, b);
                    }
                    assert forall|b: int| pj < b < pk + 1 implies pair_registered(
                        t5,
                        *chain,
                        pj as int,
                        b,
                    ) by {
                        if b < pk {
                            lemma_pair_registered_preserved(t0, t5, *chain, pj as int, b);
                        }
                    }
                }
            }
            pk = pk + 1;
        }
        proof {
            if result.first_expressions@.len() < MAX_WITNESSES {
                assert forall|a: int, b: int|
                    0 <= a < b < num_steps && a < pj + 1 implies pair_registered(
                    result.first_expressions@,
                    *chain,
                    a,
                    b,
                ) by {}
            }
        }
        pj = pj + 1;
    }
    proof {
        if result.first_expressions@.len() < MAX_WITNESSES {
            assert forall|a: int, b: int|
                0 <= a < b < chain.expressions@.len() implies pair_registered(
                result.first_expressions@,
                *chain,
                a,
                b,
            ) by {}
            assert(all_pairs_registered(result.first_expressions@, *chain));
        }
    }
    let mut max_rank: usize = if result.lists[1].len() > 0 {
        1
    } else {
        0
    };
    // U2. Ranks r = 2, 3, ...: combine pairs of resolved functions whose
    // bounds sum to r - 1. Stop as soon as nothing is unresolved, no rank
    // beyond twice the highest productive rank can change anything, or ranks
    // exceed the size of the function space.
    let mut r: usize = 2;
    while remaining > 0 && r <= 2 * max_rank + 1 && r < NUM_FUNCTIONS
        invariant
            chain.wf(),
            result.wf(),
            remaining == count_unassigned(result.upper_bounds@),
            zero_bounds_are_chain(result.upper_bounds@, *chain),
            forall|i: int|
                0 <= i < result.first_expressions@.len() ==> first_expression_ok(
                    *chain,
                    #[trigger] result.first_expressions@[i],
                ),
            2 <= r <= NUM_FUNCTIONS,
            max_rank < r,
            result.lists@.len() == r,
            result.lists@[0int]@ == seeds0,
            forall|rr: int|
                max_rank < rr < result.lists@.len() ==> (#[trigger] result.lists@[rr])@.len()
                    == 0,
            forall|i: int|
                0 <= i < result.first_expressions@.len() ==> result.upper_bounds@[(
                #[trigger] result.first_expressions@[i]).spec_eval() as int] == 1,
            result.first_expressions@.len() < MAX_WITNESSES ==> all_pairs_registered(
                result.first_expressions@,
                *chain,
            ),
        decreases NUM_FUNCTIONS - r,
    {
        // Open the rank-r frontier.
        {
            let ghost pre = result;
            result.lists.push(Vec::new());
            result.stats.push(0);
            proof {
                assert forall|rr: int| 0 <= rr < result.lists@.len() implies list_wf(
                    (#[trigger] result.lists@[rr])@,
                    result.upper_bounds@,
                    rr,
                ) by {
                    if rr < pre.lists@.len() {
                        assert(result.lists@[rr] == pre.lists@[rr]);
                        assert(list_wf(pre.lists@[rr]@, pre.upper_bounds@, rr));
                    } else {
                        assert(result.lists@[rr]@.len() == 0);
                    }
                }
                assert forall|rr: int| 0 <= rr < result.lists@.len() implies result.stats@[rr] == (
                #[trigger] result.lists@[rr])@.len() + (if rr == 0 {
                    1int
                } else {
                    0int
                }) by {
                    if rr < pre.lists@.len() {
                        assert(result.lists@[rr] == pre.lists@[rr]);
                        assert(result.stats@[rr] == pre.stats@[rr]);
                    } else {
                        assert(result.lists@[rr]@.len() == 0);
                    }
                }
                assert forall|v: int|
                    0 <= v < NUM_FUNCTIONS && #[trigger] result.upper_bounds@[v]
                        != INFINITY implies (result.upper_bounds@[v] as int)
                    < result.lists@.len() by {
                    assert((pre.upper_bounds@[v] as int) < pre.lists@.len());
                }
                assert(result.wf());
                assert forall|rr: int|
                    max_rank < rr < result.lists@.len() && rr != r implies (
                #[trigger] result.lists@[rr])@.len() == 0 by {
                    assert(result.lists@[rr] == pre.lists@[rr]);
                }
            }
        }
        let ghost at_rank = result.lists@;
        proof {
            assert forall|rr: int|
                max_rank < rr < at_rank.len() implies (#[trigger] at_rank[rr])@.len() == 0 by {}
        }
        let mut rank_pushed = false;
        // U3. Operand bounds j and k = r - 1 - j, j running down from
        // (r - 1) / 2: every pair is met once, unordered.
        let mut jj: usize = (r - 1) / 2 + 1;
        while jj > 0
            invariant
                chain.wf(),
                result.wf(),
                remaining == count_unassigned(result.upper_bounds@),
                zero_bounds_are_chain(result.upper_bounds@, *chain),
                forall|i: int|
                    0 <= i < result.first_expressions@.len() ==> first_expression_ok(
                        *chain,
                        #[trigger] result.first_expressions@[i],
                    ),
                2 <= r < NUM_FUNCTIONS,
                (r as int) < result.lists@.len(),
                jj <= (r - 1) / 2 + 1,
                result.lists@.len() == r + 1,
                max_rank < r,
                result.lists@[0int]@ == seeds0,
                forall|i: int|
                    0 <= i < result.first_expressions@.len() ==> result.upper_bounds@[(
                    #[trigger] result.first_expressions@[i]).spec_eval() as int] == 1,
                result.first_expressions@.len() < MAX_WITNESSES ==> all_pairs_registered(
                    result.first_expressions@,
                    *chain,
                ),
                at_rank.len() == r + 1,
                forall|rr: int|
                    max_rank < rr < at_rank.len() ==> (#[trigger] at_rank[rr])@.len() == 0,
                forall|rr: int|
                    max_rank < rr < result.lists@.len() && rr != r && rr != r - 1 ==> (
                    #[trigger] result.lists@[rr])@.len() == 0,
                !rank_pushed ==> result.lists@ == at_rank,
            decreases jj,
        {
            let j = jj - 1;
            let k = r - 1 - j;
            // U4. All pairs g, h from the bound-j and bound-k frontiers, as
            // they stood when each scan began.
            let j_len = result.lists[j].len();
            let mut gi: usize = 0;
            while gi < j_len
                invariant
                    chain.wf(),
                    result.wf(),
                    remaining == count_unassigned(result.upper_bounds@),
                    zero_bounds_are_chain(result.upper_bounds@, *chain),
                    forall|i: int|
                        0 <= i < result.first_expressions@.len() ==> first_expression_ok(
                            *chain,
                            #[trigger] result.first_expressions@[i],
                        ),
                    2 <= r < NUM_FUNCTIONS,
                    (r as int) < result.lists@.len(),
                    j == jj - 1,
                    1 <= jj,
                    jj <= (r - 1) / 2 + 1,
                    k == r - 1 - j,
                    j_len == result.lists@[j as int]@.len(),
                    result.lists@.len() == r + 1,
                    max_rank < r,
                    result.lists@[0int]@ == seeds0,
                    forall|i: int|
                        0 <= i < result.first_expressions@.len() ==> result.upper_bounds@[(
                        #[trigger] result.first_expressions@[i]).spec_eval() as int] == 1,
                    result.first_expressions@.len() < MAX_WITNESSES ==> all_pairs_registered(
                        result.first_expressions@,
                        *chain,
                    ),
                    at_rank.len() == r + 1,
                    forall|rr: int|
                        max_rank < rr < at_rank.len() ==> (#[trigger] at_rank[rr])@.len() == 0,
                    forall|rr: int|
                        max_rank < rr < result.lists@.len() && rr != r && rr != r - 1 ==> (
                        #[trigger] result.lists@[rr])@.len() == 0,
                    !rank_pushed ==> result.lists@ == at_rank,
                decreases j_len - gi,
            {
                let k_len = result.lists[k].len();
                let ghost k_snap = result.lists@[k as int]@;
                let start_hi = if j == k {
                    gi + 1
                } else {
                    0
                };
                let mut hi = start_hi;
                while hi < k_len
                    invariant
                        chain.wf(),
                        result.wf(),
                        remaining == count_unassigned(result.upper_bounds@),
                        zero_bounds_are_chain(result.upper_bounds@, *chain),
                        forall|i: int|
                            0 <= i < result.first_expressions@.len() ==> first_expression_ok(
                                *chain,
                                #[trigger] result.first_expressions@[i],
                            ),
                        2 <= r < NUM_FUNCTIONS,
                        (r as int) < result.lists@.len(),
                        j == jj - 1,
                        1 <= jj,
                        jj <= (r - 1) / 2 + 1,
                        k == r - 1 - j,
                        j_len == result.lists@[j as int]@.len(),
                        gi < j_len,
                        k_len == k_snap.len(),
                        seq_prefix_of(k_snap, result.lists@[k as int]@),
                        result.lists@.len() == r + 1,
                        max_rank < r,
                        result.lists@[0int]@ == seeds0,
                        forall|i: int|
                            0 <= i < result.first_expressions@.len() ==> result.upper_bounds@[(
                            #[trigger] result.first_expressions@[i]).spec_eval() as int] == 1,
                        result.first_expressions@.len() < MAX_WITNESSES ==> all_pairs_registered(
                            result.first_expressions@,
                            *chain,
                        ),
                        at_rank.len() == r + 1,
                        forall|rr: int|
                            max_rank < rr < at_rank.len() ==> (#[trigger] at_rank[rr])@.len() == 0,
                        forall|rr: int|
                            max_rank < rr < result.lists@.len() && rr != r && rr != r - 1 ==> (
                            #[trigger] result.lists@[rr])@.len() == 0,
                        !rank_pushed ==> result.lists@ == at_rank,
                    decreases k_len - hi,
                {
                    let g = result.lists[j][gi];
                    let h = result.lists[k][hi];
                    let ghost before = result;
                    proof {
                        assert(list_wf(result.lists@[j as int]@, result.upper_bounds@, j as int));
                        assert(list_wf(result.lists@[k as int]@, result.upper_bounds@, k as int));
                        assert(result.upper_bounds@[g.0 as int] == j as int);
                        assert(result.upper_bounds@[h.0 as int] == k as int);
                        assert(1 <= k);
                    }
                    // U5, U6. The five combinations of g and h.
                    let p = combine_pair(&mut result, &mut remaining, g, h, r as u32);
                    if p {
                        rank_pushed = true;
                    }
                    proof {
                        assert(j as int <= r - 2);
                        assert(result.lists@[j as int] == before.lists@[j as int]);
                        assert(seq_prefix_of(
                            before.lists@[k as int]@,
                            result.lists@[k as int]@,
                        ));
                        lemma_prefix_trans(
                            k_snap,
                            before.lists@[k as int]@,
                            result.lists@[k as int]@,
                        );
                        assert(result.lists@[0int] == before.lists@[0int]);
                        assert forall|rr: int|
                            max_rank < rr < result.lists@.len() && rr != r && rr != r
                                - 1 implies (#[trigger] result.lists@[rr])@.len() == 0 by {
                            assert(rr <= r - 2);
                            assert(result.lists@[rr] == before.lists@[rr]);
                        }
                        assert forall|i: int|
                            0 <= i < result.first_expressions@.len() implies result.upper_bounds@[(
                        #[trigger] result.first_expressions@[i]).spec_eval() as int] == 1 by {
                            let e = before.first_expressions@[i];
                            assert(result.first_expressions@[i] == e);
                            assert(first_expression_ok(*chain, e));
                            e.lemma_eval_valid();
                            assert(before.upper_bounds@[e.spec_eval() as int] == 1);
                        }
                    }
                    hi = hi + 1;
                }
                gi = gi + 1;
            }
            jj = jj - 1;
        }
        if rank_pushed {
            max_rank = r;
        } else {
            proof {
                assert(result.lists@ == at_rank);
                assert forall|rr: int|
                    max_rank < rr < result.lists@.len() implies (
                #[trigger] result.lists@[rr])@.len() == 0 by {
                    assert(at_rank[rr]@.len() == 0);
                }
            }
        }
        r = r + 1;
    }
    proof {
        if remaining > 0 && r < NUM_FUNCTIONS {
            assert(r > 2 * max_rank + 1);
            assert forall|rr1: int, rr2: int|
                0 <= rr1 < result.lists@.len() && 0 <= rr2 < result.lists@.len() && (
                #[trigger] result.lists@[rr1])@.len() > 0 && (
                #[trigger] result.lists@[rr2])@.len() > 0 implies rr1 + rr2 + 1
                < result.lists@.len() by {
                assert(rr1 <= max_rank && rr2 <= max_rank);
            }
        }
        assert(forall|v: int|
            0 <= v < result.upper_bounds@.len() ==> ((result.upper_bounds@[v] == 0) <==> (v == 0
                || chain_has_table(*chain, v))));
        assert(result.upper_bounds@[0] == 0);
        assert forall|i: int|
            0 <= i < chain.expressions@.len() implies result.upper_bounds@[(
        #[trigger] chain.expressions@[i]).function.0 as int] == 0 by {
            assert(chain_has_table(*chain, chain.expressions@[i].function.0 as int));
        }
    }
    result
}

} // verus!
