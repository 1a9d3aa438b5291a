use vstd::prelude::*;

use crate::counting::{count_unassigned, lemma_count_update, lemma_count_zero, INFINITY};
use crate::expression::Expression;
use crate::function::{Function, NUM_FUNCTIONS};

verus! {

/// Every member of a frontier list is a valid function whose assigned length
/// is exactly the list's rank.
pub open spec fn list_wf(list: Seq<Function>, lengths: Seq<u32>, r: int) -> bool {
    forall|k: int|
        0 <= k < list.len() ==> (#[trigger] list[k]).valid() && lengths[list[k].0 as int] == r
}

/// A recorded witness for a function of length `r`: a binary combination of
/// two already-assigned functions whose lengths sum to `r - 1`, evaluating to
/// the function itself.
pub open spec fn witness_ok(lengths: Seq<u32>, e: Expression, v: int, r: u32) -> bool {
    &&& e.is_combination()
    &&& e.valid_operands()
    &&& e.spec_eval() == v
    &&& lengths[e.left().0 as int] != INFINITY
    &&& lengths[e.right().0 as int] != INFINITY
    &&& lengths[e.left().0 as int] + lengths[e.right().0 as int] + 1 == r
}

/// The witness store for one function value: empty while the value is
/// unreached or costs nothing, one exact witness otherwise.
pub open spec fn expression_entry_ok(lengths: Seq<u32>, entry: Seq<Expression>, v: int) -> bool {
    if lengths[v] == 0 || lengths[v] == INFINITY {
        entry.len() == 0
    } else {
        entry.len() == 1 && witness_ok(lengths, entry[0], v, lengths[v])
    }
}

/// Outcome of the exact search: for every function value, its assigned gate
/// count (`INFINITY` while unreached), the witnessing expression at that
/// count, the frontier of functions first reached at each rank, and per-rank
/// discovery counts.
pub struct Result {
    pub lengths: Vec<u32>,
    pub expressions: Vec<Vec<Expression>>,
    pub lists: Vec<Vec<Function>>,
    pub stats: Vec<usize>,
}

impl Result {
    /// Internal consistency: arrays cover the whole function space, frontier
    /// lists agree with the assigned lengths, the per-rank counts agree with
    /// the lists (rank 0 also counts the zero constant, which sits in no
    /// list), and every assigned nonzero length carries an exact witness.
    pub open spec fn wf(self) -> bool {
        &&& self.lengths@.len() == NUM_FUNCTIONS
        &&& self.expressions@.len() == NUM_FUNCTIONS
        &&& 1 <= self.lists@.len() <= INFINITY
        &&& self.stats@.len() == self.lists@.len()
        &&& forall|rr: int|
            0 <= rr < self.lists@.len() ==> list_wf((#[trigger] self.lists@[rr])@, self.lengths@, rr)
        &&& forall|rr: int|
            0 <= rr < self.lists@.len() ==> self.stats@[rr] == (#[trigger] self.lists@[rr])@.len()
                + if rr == 0 {
                1int
            } else {
                0int
            }
        &&& forall|v: int|
            0 <= v < self.expressions@.len() ==> expression_entry_ok(
                self.lengths@,
                (#[trigger] self.expressions@[v])@,
                v,
            )
        &&& forall|v: int|
            0 < v < NUM_FUNCTIONS && #[trigger] self.lengths@[v] == 0 ==> seq_has_table(
                self.lists@[0int]@,
                v as u32,
            )
        &&& forall|v: int|
            0 <= v < NUM_FUNCTIONS && 1 <= #[trigger] self.lengths@[v] < INFINITY ==> ((
            self.lengths@[v] as int) < self.lists@.len() && seq_has_table(
                self.lists@[self.lengths@[v] as int]@,
                v as u32,
            ))
    }
}

/// Some seed has the table `v`.
pub open spec fn is_seed_table(seeds: Seq<Function>, v: int) -> bool {
    exists|k: int| 0 <= k < seeds.len() && (#[trigger] seeds[k]).0 == v
}

/// Length 0 belongs exactly to the zero constant and the seeds.
pub open spec fn zero_lengths_are_seeds(lengths: Seq<u32>, seeds: Seq<Function>) -> bool {
    forall|v: int|
        0 <= v < lengths.len() ==> ((lengths[v] == 0) <==> (v == 0 || is_seed_table(seeds, v)))
}

/// Facts carried through the whole search: the result is consistent, the
/// counter matches the unreached entries, and length 0 belongs exactly to the
/// zero constant and the seeds.
spec fn search_inv(result: Result, remaining: u32, seeds: Seq<Function>) -> bool {
    &&& result.wf()
    &&& remaining == count_unassigned(result.lengths@)
    &&& zero_lengths_are_seeds(result.lengths@, seeds)
}

/// A step that changes no length between zero and nonzero keeps the
/// zero-length characterization.
proof fn lemma_zero_lengths_preserved(pre: Seq<u32>, post: Seq<u32>, seeds: Seq<Function>)
    requires
        pre.len() == post.len(),
        zero_lengths_are_seeds(pre, seeds),
        forall|v: int| 0 <= v < pre.len() ==> ((post[v] == 0) <==> (pre[v] == 0)),
    ensures
        zero_lengths_are_seeds(post, seeds),
{
}

/// One inner step of the search: considers one candidate expression at rank
/// `r`. A function that already has a length is left entirely untouched —
/// lengths are write-once, so re-running the step on an already-assigned
/// function is a no-op. An unreached function is assigned length `r`, records
/// the candidate as its witness, joins the rank-`r` frontier, and the
/// remaining-unreached counter goes down by one.
pub fn record_candidate(result: &mut Result, remaining: &mut u32, expr: Expression, r: u32)
    requires
        old(result).wf(),
        *old(remaining) == count_unassigned(old(result).lengths@),
        expr.is_combination(),
        expr.valid_operands(),
        1 <= r < INFINITY,
        (r as int) < old(result).lists@.len(),
        old(result).lengths@[expr.left().0 as int] + old(result).lengths@[expr.right().0 as int]
            + 1 == r as int,
    ensures
        final(result).wf(),
        *final(remaining) == count_unassigned(final(result).lengths@),
        final(result).lists@.len() == old(result).lists@.len(),
        // Write-once: an assigned function is never touched again.
        old(result).lengths@[expr.spec_eval() as int] != INFINITY
            ==> (*final(result) == *old(result) && *final(remaining) == *old(remaining)),
        old(result).lengths@[expr.spec_eval() as int] == INFINITY ==> {
            &&& final(result).lengths@ == old(result).lengths@.update(expr.spec_eval() as int, r)
            &&& final(result).lists@[r as int]@ == old(result).lists@[r as int]@.push(
                Function(expr.spec_eval()),
            )
            &&& final(result).expressions@[expr.spec_eval() as int]@ == seq![expr]
            &&& *final(remaining) == *old(remaining) - 1
        },
        // Witness stores of other functions are untouched.
        forall|v: int|
            0 <= v < NUM_FUNCTIONS && v != expr.spec_eval()
                ==> final(result).expressions@[v] == old(result).expressions@[v],
        // No length ever changes once assigned.
        forall|v: int|
            0 <= v < NUM_FUNCTIONS && old(result).lengths@[v] != INFINITY
                ==> final(result).lengths@[v] == old(result).lengths@[v],
        forall|v: int|
            0 <= v < NUM_FUNCTIONS && old(result).lengths@[v] == INFINITY && v != expr.spec_eval()
                ==> final(result).lengths@[v] == INFINITY,
        // Length 0 belongs to exactly the same functions as before.
        forall|v: int|
            0 <= v < NUM_FUNCTIONS ==> ((final(result).lengths@[v] == 0) <==> (old(
            result,
            ).lengths@[v] == 0)),
        // Frontier lists other than rank `r` are untouched.
        forall|rr: int|
            0 <= rr < old(result).lists@.len() && rr != r
                ==> final(result).lists@[rr] == old(result).lists@[rr],
{
    let f = expr.evaluate();
    let fi = f.index();
    proof {
        expr.lemma_eval_valid();
    }
    if result.lengths[fi] == INFINITY {
        let ghost pre_lengths = result.lengths@;
        result.lengths[fi] = r;
        proof {
            lemma_count_update(pre_lengths, fi as int, r);
            lemma_count_zero(pre_lengths);
            assert(*remaining >= 1);
        }
        *remaining = *remaining - 1;
        result.expressions[fi].push(expr);
        result.lists[r as usize].push(f);
        let n = result.lists[r as usize].len();
        result.stats[r as usize] = n;
        proof {
            assert(expression_entry_ok(pre_lengths, old(result).expressions@[fi as int]@, fi as int));
            assert(result.expressions@[fi as int]@ =~= seq![expr]);
            let lengths = result.lengths@;
            assert forall|rr: int| 0 <= rr < result.lists@.len() implies list_wf(
                (#[trigger] result.lists@[rr])@,
                lengths,
                rr,
            ) by {
                let lst = result.lists@[rr]@;
                assert forall|k: int|
                    0 <= k < lst.len() implies (#[trigger] lst[k]).valid() && lengths[lst[k].0
                    as int] == rr by {
                    if rr == r as int && k == lst.len() - 1 {
                        assert(lst[k] == f);
                    } else {
                        let old_lst = old(result).lists@[rr]@;
                        assert(lst[k] == old_lst[k]);
                        assert(old_lst[k].valid() && pre_lengths[old_lst[k].0 as int] == rr);
                        assert(rr < INFINITY);
                        assert(lst[k].0 as int != fi as int);
                    }
                }
            }
            assert forall|v: int| 0 <= v < result.expressions@.len() implies expression_entry_ok(
                lengths,
                (#[trigger] result.expressions@[v])@,
                v,
            ) by {
                if v == fi as int {
                    assert(result.expressions@[v]@ =~= old(result).expressions@[v]@.push(expr));
                    assert(expression_entry_ok(pre_lengths, old(result).expressions@[v]@, v));
                    assert(old(result).expressions@[v]@.len() == 0);
                    assert(result.expressions@[v]@ =~= seq![expr]);
                    assert(witness_ok(lengths, expr, v, r));
                } else {
                    assert(expression_entry_ok(pre_lengths, old(result).expressions@[v]@, v));
                    let entry = result.expressions@[v]@;
                    assert(entry == old(result).expressions@[v]@);
                    if pre_lengths[v] != 0 && pre_lengths[v] != INFINITY {
                        let e = entry[0];
                        assert(witness_ok(pre_lengths, e, v, pre_lengths[v]));
                        assert(e.left().0 as int != fi as int && e.right().0 as int != fi as int);
                        assert(witness_ok(lengths, e, v, lengths[v]));
                    }
                }
            }
            assert forall|v: int|
                0 < v < NUM_FUNCTIONS && #[trigger] result.lengths@[v] == 0 implies seq_has_table(
                result.lists@[0int]@,
                v as u32,
            ) by {
                assert(v != fi as int);
                assert(pre_lengths[v] == 0);
                assert(seq_has_table(old(result).lists@[0int]@, v as u32));
                let idx = choose|idx: int|
                    0 <= idx < old(result).lists@[0int]@.len() && (#[trigger] old(
                        result,
                    ).lists@[0int]@[idx]).0 == v as u32;
                if r == 0 {
                } else {
                    assert(result.lists@[0int] == old(result).lists@[0int]);
                }
                assert(result.lists@[0int]@[idx].0 == v as u32);
            }
            assert forall|v: int|
                0 <= v < NUM_FUNCTIONS && 1 <= #[trigger] result.lengths@[v] < INFINITY implies ((
            result.lengths@[v] as int) < result.lists@.len() && seq_has_table(
                result.lists@[result.lengths@[v] as int]@,
                v as u32,
            )) by {
                if v == fi as int {
                    assert(result.lists@[r as int]@.last().0 == v as u32);
                } else {
                    let ell = pre_lengths[v] as int;
                    assert(1 <= ell < INFINITY);
                    assert(seq_has_table(old(result).lists@[ell]@, v as u32));
                    let idx = choose|idx: int|
                        0 <= idx < old(result).lists@[ell]@.len() && (#[trigger] old(
                            result,
                        ).lists@[ell]@[idx]).0 == v as u32;
                    if ell == r as int {
                        assert(result.lists@[ell]@[idx].0 == v as u32);
                    } else {
                        assert(result.lists@[ell] == old(result).lists@[ell]);
                        assert(result.lists@[ell]@[idx].0 == v as u32);
                    }
                }
            }
        }
    }
}

/// Considers all five combinations of one pair of reached functions at rank
/// `r`.
fn combine_pair(result: &mut Result, remaining: &mut u32, g: Function, h: Function, r: u32)
    requires
        old(result).wf(),
        *old(remaining) == count_unassigned(old(result).lengths@),
        g.valid(),
        h.valid(),
        1 <= r < INFINITY,
        (r as int) < old(result).lists@.len(),
        old(result).lengths@[g.0 as int] + old(result).lengths@[h.0 as int] + 1 == r as int,
    ensures
        final(result).wf(),
        *final(remaining) == count_unassigned(final(result).lengths@),
        final(result).lists@.len() == old(result).lists@.len(),
        forall|v: int|
            0 <= v < NUM_FUNCTIONS ==> ((final(result).lengths@[v] == 0) <==> (old(
            result,
            ).lengths@[v] == 0)),
        forall|rr: int|
            0 <= rr < old(result).lists@.len() && rr != r
                ==> final(result).lists@[rr] == old(result).lists@[rr],
        // Lengths are write-once: assigned values survive, and anything newly
        // assigned here got exactly rank `r`.
        forall|v: int|
            0 <= v < NUM_FUNCTIONS && old(result).lengths@[v] != INFINITY
                ==> final(result).lengths@[v] == old(result).lengths@[v],
        forall|v: int|
            0 <= v < NUM_FUNCTIONS ==> (final(result).lengths@[v] == old(result).lengths@[v] || (
            old(result).lengths@[v] == INFINITY && final(result).lengths@[v] == r)),
        // Witness stores of already-assigned functions are untouched; a newly
        // assigned value records one witness, an expression over exactly this
        // pair, in this operand order.
        forall|v: int|
            0 <= v < NUM_FUNCTIONS && old(result).lengths@[v] != INFINITY
                ==> final(result).expressions@[v] == old(result).expressions@[v],
        forall|v: int|
            0 <= v < NUM_FUNCTIONS && old(result).lengths@[v] == INFINITY
                && final(result).lengths@[v] != INFINITY ==> (final(result).expressions@[v]@.len()
                == 1 && final(result).expressions@[v]@[0].left() == g
                && final(result).expressions@[v]@[0].right() == h),
        // All five combinations of the pair are reached afterwards.
        final(result).lengths@[Expression::And(g, h).spec_eval() as int] != INFINITY,
        final(result).lengths@[Expression::Or(g, h).spec_eval() as int] != INFINITY,
        final(result).lengths@[Expression::Xor(g, h).spec_eval() as int] != INFINITY,
        final(result).lengths@[Expression::ButNot(g, h).spec_eval() as int] != INFINITY,
        final(result).lengths@[Expression::NotBut(g, h).spec_eval() as int] != INFINITY,
{
    proof {
        assert(old(result).lengths@[g.0 as int] != INFINITY);
        assert(old(result).lengths@[h.0 as int] != INFINITY);
        Expression::And(g, h).lemma_eval_valid();
        Expression::Or(g, h).lemma_eval_valid();
        Expression::Xor(g, h).lemma_eval_valid();
        Expression::ButNot(g, h).lemma_eval_valid();
        Expression::NotBut(g, h).lemma_eval_valid();
    }
    record_candidate(result, remaining, Expression::And(g, h), r);
    let ghost s1 = *result;
    proof {
        assert(result.lengths@[g.0 as int] == old(result).lengths@[g.0 as int]);
        assert(result.lengths@[h.0 as int] == old(result).lengths@[h.0 as int]);
    }
    record_candidate(result, remaining, Expression::Or(g, h), r);
    let ghost s2 = *result;
    proof {
        assert(result.lengths@[g.0 as int] == old(result).lengths@[g.0 as int]);
        assert(result.lengths@[h.0 as int] == old(result).lengths@[h.0 as int]);
    }
    record_candidate(result, remaining, Expression::Xor(g, h), r);
    let ghost s3 = *result;
    proof {
        assert(result.lengths@[g.0 as int] == old(result).lengths@[g.0 as int]);
        assert(result.lengths@[h.0 as int] == old(result).lengths@[h.0 as int]);
    }
    record_candidate(result, remaining, Expression::ButNot(g, h), r);
    let ghost s4 = *result;
    proof {
        assert(result.lengths@[g.0 as int] == old(result).lengths@[g.0 as int]);
        assert(result.lengths@[h.0 as int] == old(result).lengths@[h.0 as int]);
    }
    record_candidate(result, remaining, Expression::NotBut(g, h), r);
    proof {
        assert forall|v: int|
            0 <= v < NUM_FUNCTIONS && old(result).lengths@[v] == INFINITY && result.lengths@[v]
                != INFINITY implies (result.expressions@[v]@.len() == 1
            && result.expressions@[v]@[0].left() == g && result.expressions@[v]@[0].right()
            == h) by {
            if s1.lengths@[v] != INFINITY {
                assert(s1.expressions@[v]@ == seq![Expression::And(g, h)]);
            } else if s2.lengths@[v] != INFINITY {
                assert(s2.expressions@[v]@ == seq![Expression::Or(g, h)]);
            } else if s3.lengths@[v] != INFINITY {
                assert(s3.expressions@[v]@ == seq![Expression::Xor(g, h)]);
            } else if s4.lengths@[v] != INFINITY {
                assert(s4.expressions@[v]@ == seq![Expression::ButNot(g, h)]);
            } else {
                assert(result.expressions@[v]@ == seq![Expression::NotBut(g, h)]);
            }
        }
    }
}



/// Whether some entry of `s` computes table `t`.
pub open spec fn seq_has_table(s: Seq<Function>, t: u32) -> bool {
    exists|i: int| 0 <= i < s.len() && (#[trigger] s[i]).0 == t
}

/// The rank-0 frontier the search builds from its seeds: the seeds in order,
/// keeping only the first occurrence of each table and dropping the zero
/// constant (which is assigned cost 0 without sitting in any frontier list).
pub open spec fn distinct_nonzero_seeds(seeds: Seq<Function>) -> Seq<Function>
    decreases seeds.len(),
{
    if seeds.len() == 0 {
        Seq::empty()
    } else {
        let p = distinct_nonzero_seeds(seeds.drop_last());
        if seeds.last().0 == 0 || seq_has_table(p, seeds.last().0) {
            p
        } else {
            p.push(seeds.last())
        }
    }
}

/// The rank-0 frontier holds exactly the nonzero seed tables.
pub proof fn lemma_distinct_nonzero_seeds_tables(seeds: Seq<Function>, t: u32)
    ensures
        seq_has_table(distinct_nonzero_seeds(seeds), t) <==> (t != 0 && seq_has_table(seeds, t)),
    decreases seeds.len(),
{
    if seeds.len() > 0 {
        lemma_distinct_nonzero_seeds_tables(seeds.drop_last(), t);
        let p = distinct_nonzero_seeds(seeds.drop_last());
        let d = distinct_nonzero_seeds(seeds);
        if seq_has_table(d, t) {
            if !seq_has_table(p, t) {
                assert(d.last().0 == t);
            }
            if seq_has_table(seeds.drop_last(), t) {
                let i = choose|i: int|
                    0 <= i < seeds.drop_last().len() && (#[trigger] seeds.drop_last()[i]).0 == t;
                assert(seeds[i].0 == t);
            }
        }
        if t != 0 && seq_has_table(seeds, t) {
            let i = choose|i: int| 0 <= i < seeds.len() && (#[trigger] seeds[i]).0 == t;
            if i < seeds.len() - 1 {
                assert(seeds.drop_last()[i].0 == t);
                if seq_has_table(p, t) {
                    let m = choose|m: int| 0 <= m < p.len() && (#[trigger] p[m]).0 == t;
                    assert(d[m].0 == t || d == p);
                    assert(seq_has_table(d, t));
                }
            } else {
                if !seq_has_table(p, t) {
                    assert(d.last().0 == t);
                } else {
                    let m = choose|m: int| 0 <= m < p.len() && (#[trigger] p[m]).0 == t;
                    assert(d[m].0 == t || d == p);
                }
            }
        }
    }
}

/// All five combinations of one ordered pair lie within one gate of the seed
/// set.
pub open spec fn pair_covered(lengths: Seq<u32>, g: Function, h: Function) -> bool {
    &&& lengths[Expression::And(g, h).spec_eval() as int] <= 1
    &&& lengths[Expression::Or(g, h).spec_eval() as int] <= 1
    &&& lengths[Expression::Xor(g, h).spec_eval() as int] <= 1
    &&& lengths[Expression::ButNot(g, h).spec_eval() as int] <= 1
    &&& lengths[Expression::NotBut(g, h).spec_eval() as int] <= 1
}

/// Every unordered pair from the rank-0 frontier is covered.
pub open spec fn all_pairs_covered(lengths: Seq<u32>, frontier: Seq<Function>) -> bool {
    forall|a: int, b: int|
        0 <= a < b < frontier.len() ==> pair_covered(lengths, frontier[a], frontier[b])
}

/// Coverage survives any step that never touches an assigned length.
proof fn lemma_coverage_preserved(pre: Seq<u32>, post: Seq<u32>, frontier: Seq<Function>)
    requires
        pre.len() == post.len(),
        pre.len() == NUM_FUNCTIONS,
        forall|k: int| 0 <= k < frontier.len() ==> (#[trigger] frontier[k]).valid(),
        all_pairs_covered(pre, frontier),
        forall|v: int| 0 <= v < pre.len() && pre[v] != INFINITY ==> post[v] == pre[v],
    ensures
        all_pairs_covered(post, frontier),
{
    assert forall|a: int, b: int| 0 <= a < b < frontier.len() implies pair_covered(
        post,
        frontier[a],
        frontier[b],
    ) by {
        let g = frontier[a];
        let h = frontier[b];
        assert(pair_covered(pre, g, h));
        Expression::And(g, h).lemma_eval_valid();
        Expression::Or(g, h).lemma_eval_valid();
        Expression::Xor(g, h).lemma_eval_valid();
        Expression::ButNot(g, h).lemma_eval_valid();
        Expression::NotBut(g, h).lemma_eval_valid();
    }
}

/// Elementary identities of the five operators on masked tables.
proof fn lemma_op_facts(x: u32, y: u32)
    by (bit_vector)
    requires
        x <= 0xffff,
        y <= 0xffff,
    ensures
        x & y == y & x,
        x | y == y | x,
        x ^ y == y ^ x,
        x & (!y & 0xffff) == (!y & 0xffff) & x,
        (!x & 0xffff) & y == y & (!x & 0xffff),
        x & 0 == 0,
        0 & x == 0,
        x | 0 == x,
        0 | x == x,
        x ^ 0 == x,
        0 ^ x == x,
        x & (!0u32 & 0xffff) == x,
        (!0u32 & 0xffff) & x == x,
        (!x & 0xffff) & 0 == 0,
        0 & (!x & 0xffff) == 0,
        x & x == x,
        x | x == x,
        x ^ x == 0,
        x & (!x & 0xffff) == 0,
        (!x & 0xffff) & x == 0,
{
}


/// The expression combines two frontier functions, the earlier frontier
/// position as the left operand.
pub open spec fn witness_pairs_frontier(e: Expression, frontier: Seq<Function>) -> bool {
    exists|a: int, b: int|
        0 <= a < b < frontier.len() && (#[trigger] frontier[a]) == e.left() && (
        #[trigger] frontier[b]) == e.right()
}

/// Every length-1 value's recorded witness combines two rank-0 frontier
/// functions, the earlier frontier position as the left operand.
pub open spec fn rank_one_witnesses_in_frontier(result: Result, frontier: Seq<Function>) -> bool {
    forall|v: int|
        0 <= v < NUM_FUNCTIONS && #[trigger] result.lengths@[v] == 1
            ==> result.expressions@[v]@.len() == 1 && witness_pairs_frontier(
            result.expressions@[v]@[0],
            frontier,
        )
}

/// A step that assigns no new length 1 and keeps assigned witness stores
/// keeps the rank-1 witness shape.
proof fn lemma_rank_one_witnesses_preserved(pre: Result, post: Result, frontier: Seq<Function>)
    requires
        pre.lengths@.len() == NUM_FUNCTIONS,
        post.lengths@.len() == NUM_FUNCTIONS,
        pre.expressions@.len() == NUM_FUNCTIONS,
        post.expressions@.len() == NUM_FUNCTIONS,
        rank_one_witnesses_in_frontier(pre, frontier),
        forall|v: int|
            0 <= v < NUM_FUNCTIONS && #[trigger] post.lengths@[v] == 1 ==> pre.lengths@[v] == 1,
        forall|v: int|
            0 <= v < NUM_FUNCTIONS && pre.lengths@[v] != INFINITY ==> post.expressions@[v]
                == pre.expressions@[v],
    ensures
        rank_one_witnesses_in_frontier(post, frontier),
{
    assert forall|v: int|
        0 <= v < NUM_FUNCTIONS && #[trigger] post.lengths@[v] == 1 implies post.expressions@[v]@.len()
        == 1 && witness_pairs_frontier(post.expressions@[v]@[0], frontier) by {
        assert(pre.lengths@[v] == 1);
        assert(pre.expressions@[v]@.len() == 1 && witness_pairs_frontier(
            pre.expressions@[v]@[0],
            frontier,
        ));
        assert(post.expressions@[v] == pre.expressions@[v]);
    }
}

/// Finds, for every function value, the fewest gates that derive it from the
/// given seed functions; the zero constant always costs nothing. Rank by
/// rank, every pair of already-reached functions is combined under the five
/// operators; a value produced for the first time at rank `r` is assigned
/// length `r` and keeps that length forever, which is what makes the
/// breadth-first order exact. The search stops the instant no unreached value
/// is left, or when no later rank can produce anything new.
#[verifier::rlimit(60)]
pub fn find_normal_lengths(inputs: &Vec<Function>) -> (result: Result)
    requires
        forall|k: int| 0 <= k < inputs@.len() ==> (#[trigger] inputs@[k]).valid(),
    ensures
        result.wf(),
        result.lengths@[0] == 0,
        forall|k: int|
            0 <= k < inputs@.len() ==> result.lengths@[(#[trigger] inputs@[k]).0 as int] == 0,
        zero_lengths_are_seeds(result.lengths@, inputs@),
        // The rank-0 frontier is exactly the distinct nonzero seeds, in
        // order; its discovery count also counts the zero constant.
        result.lists@[0int]@ == distinct_nonzero_seeds(inputs@),
        result.stats@[0int] == distinct_nonzero_seeds(inputs@).len() + 1,
        // Each length-1 value's witness pairs two rank-0 frontier functions,
        // the earlier one on the left.
        rank_one_witnesses_in_frontier(result, distinct_nonzero_seeds(inputs@)),
        // One rank of closure: every combination of two seed functions is
        // reached within one gate.
        forall|e: Expression|
            (#[trigger] e.is_combination()) && e.valid_operands() && is_seed_table(
                inputs@,
                e.left().0 as int,
            ) && is_seed_table(inputs@, e.right().0 as int) ==> result.lengths@[e.spec_eval()
                as int] <= 1,
        // Exit certificate: the search ran until nothing was unreached, or
        // until no pair of nonempty frontiers could feed a rank it had not
        // already processed (the processed ranks are exactly
        // 1 .. lists.len() - 1), or until the rank horizon reached the size
        // of the function space.
        count_unassigned(result.lengths@) == 0 || result.lists@.len() >= NUM_FUNCTIONS || (
        forall|rr1: int, rr2: int|
            0 <= rr1 < result.lists@.len() && 0 <= rr2 < result.lists@.len() && (
            #[trigger] result.lists@[rr1])@.len() > 0 && (#[trigger] result.lists@[rr2])@.len()
                > 0 ==> rr1 + rr2 + 1 < result.lists@.len()),
{
    // L1. Initialize: every value unreached, no witnesses, one empty frontier.
    let mut lengths: Vec<u32> = Vec::new();
    while lengths.len() < NUM_FUNCTIONS
        invariant
            lengths@.len() <= NUM_FUNCTIONS,
            forall|i: int| 0 <= i < lengths@.len() ==> lengths@[i] == INFINITY,
        decreases NUM_FUNCTIONS - lengths@.len(),
    {
        lengths.push(INFINITY);
    }
    let mut expressions: Vec<Vec<Expression>> = Vec::new();
    while expressions.len() < NUM_FUNCTIONS
        invariant
            expressions@.len() <= NUM_FUNCTIONS,
            forall|i: int| 0 <= i < expressions@.len() ==> (#[trigger] expressions@[i])@.len() == 0,
        decreases NUM_FUNCTIONS - expressions@.len(),
    {
        expressions.push(Vec::new());
    }
    let mut remaining: u32 = 0x10000;
    proof {
        crate::counting::lemma_count_all_unassigned(lengths@);
    }
    // The zero constant costs nothing.
    let ghost pre = lengths@;
    lengths[0] = 0;
    proof {
        lemma_count_update(pre, 0, 0);
    }
    remaining = remaining - 1;
    // The seeds cost nothing; each distinct one joins the rank-0 frontier.
    let mut list0: Vec<Function> = Vec::new();
    let num_inputs = inputs.len();
    for k in 0..num_inputs
        invariant
            num_inputs == inputs@.len(),
            forall|m: int| 0 <= m < inputs@.len() ==> (#[trigger] inputs@[m]).valid(),
            lengths@.len() == NUM_FUNCTIONS,
            remaining == count_unassigned(lengths@),
            list0@.len() + remaining == 0xffff,
            lengths@[0] == 0,
            forall|v: int|
                0 <= v < NUM_FUNCTIONS ==> (lengths@[v] == 0 <==> (v == 0 || exists|m: int|
                    0 <= m < k && (#[trigger] inputs@[m]).0 == v)),
            forall|v: int| 0 <= v < NUM_FUNCTIONS ==> (lengths@[v] == 0 || lengths@[v] == INFINITY),
            list_wf(list0@, lengths@, 0),
            list0@ == distinct_nonzero_seeds(inputs@.subrange(0, k as int)),
            forall|m: int|
                0 <= m < k ==> ((#[trigger] inputs@[m]).0 == 0 || exists|idx: int|
                    0 <= idx < list0@.len() && list0@[idx].0 == inputs@[m].0),
    {
        let f = inputs[k];
        proof {
            assert(inputs@.subrange(0, k + 1).drop_last() =~= inputs@.subrange(0, k as int));
            assert(inputs@.subrange(0, k + 1).last() == inputs@[k as int]);
            lemma_distinct_nonzero_seeds_tables(
                inputs@.subrange(0, k as int),
                inputs@[k as int].0,
            );
            assert forall|m: int|
                0 <= m < k && (#[trigger] inputs@[m]).0 == inputs@[k as int].0 implies seq_has_table(
                inputs@.subrange(0, k as int),
                inputs@[k as int].0,
            ) by {
                assert(inputs@.subrange(0, k as int)[m].0 == inputs@[k as int].0);
            }
            if seq_has_table(inputs@.subrange(0, k as int), inputs@[k as int].0) {
                let m = choose|m: int|
                    0 <= m < k && (#[trigger] inputs@.subrange(0, k as int)[m]).0 == inputs@[k
                        as int].0;
                assert(inputs@[m].0 == inputs@[k as int].0);
            }
        }
        let fi = f.index();
        if lengths[fi] == INFINITY {
            let ghost pre = lengths@;
            lengths[fi] = 0;
            proof {
                lemma_count_update(pre, fi as int, 0);
                lemma_count_zero(pre);
            }
            remaining = remaining - 1;
            let ghost pre_list = list0@;
            list0.push(f);
            proof {
                assert(list0@ == distinct_nonzero_seeds(inputs@.subrange(0, k + 1)));
                assert forall|m: int|
                    0 <= m < k + 1 implies ((#[trigger] inputs@[m]).0 == 0 || exists|idx: int|
                        0 <= idx < list0@.len() && list0@[idx].0 == inputs@[m].0) by {
                    if m == k {
                        assert(list0@.last().0 == inputs@[m].0);
                    } else if inputs@[m].0 != 0 {
                        let idx = choose|idx: int|
                            0 <= idx < pre_list.len() && pre_list[idx].0 == inputs@[m].0;
                        assert(list0@[idx].0 == inputs@[m].0);
                    }
                }
                assert forall|v: int| 0 <= v < NUM_FUNCTIONS implies (lengths@[v] == 0 <==> (v == 0
                    || exists|m: int| 0 <= m < k + 1 && (#[trigger] inputs@[m]).0 == v)) by {
                    if v == fi as int {
                        assert(inputs@[k as int].0 == v);
                        assert(lengths@[v] == 0);
                    } else {
                        assert(lengths@[v] == pre[v]);
                        if v != 0 && pre[v] == 0 {
                            let m = choose|m: int| 0 <= m < k && (#[trigger] inputs@[m]).0 == v;
                            assert(0 <= m < k + 1 && inputs@[m].0 == v);
                        }
                        if exists|m: int| 0 <= m < k + 1 && (#[trigger] inputs@[m]).0 == v {
                            let m = choose|m: int|
                                0 <= m < k + 1 && (#[trigger] inputs@[m]).0 == v;
                            if m < k {
                                assert(pre[v] == 0);
                            } else {
                                assert(inputs@[k as int].0 == fi);
                            }
                        }
                    }
                }
            }
        } else {
            proof {
                assert forall|v: int| 0 <= v < NUM_FUNCTIONS implies (lengths@[v] == 0 <==> (v == 0
                    || exists|m: int| 0 <= m < k + 1 && (#[trigger] inputs@[m]).0 == v)) by {
                    if v == fi as int {
                        assert(inputs@[k as int].0 == v);
                        assert(lengths@[v] != INFINITY);
                        assert(lengths@[v] == 0);
                    } else {
                        if v != 0 && lengths@[v] == 0 {
                            let m = choose|m: int| 0 <= m < k && (#[trigger] inputs@[m]).0 == v;
                            assert(0 <= m < k + 1 && inputs@[m].0 == v);
                        }
                        if exists|m: int| 0 <= m < k + 1 && (#[trigger] inputs@[m]).0 == v {
                            let m = choose|m: int|
                                0 <= m < k + 1 && (#[trigger] inputs@[m]).0 == v;
                            if m < k {
                                assert(lengths@[v] == 0);
                            } else {
                                assert(inputs@[k as int].0 == fi);
                            }
                        }
                    }
                }
            }
        }
    }
    proof {
        assert forall|v: int|
            0 <= v < lengths@.len() implies ((lengths@[v] == 0) <==> (v == 0 || is_seed_table(
            inputs@,
            v,
        ))) by {
            assert(lengths@[v] == 0 <==> (v == 0 || exists|m: int|
                0 <= m < num_inputs && (#[trigger] inputs@[m]).0 == v));
        }
        assert(zero_lengths_are_seeds(lengths@, inputs@));
        assert(inputs@.subrange(0, num_inputs as int) =~= inputs@);
        assert(list0@ == distinct_nonzero_seeds(inputs@));
    }
    let num_seeds = list0.len();
    let mut lists: Vec<Vec<Function>> = Vec::new();
    lists.push(list0);
    lists.push(Vec::new());
    let mut stats: Vec<usize> = Vec::new();
    stats.push(num_seeds + 1);
    stats.push(0);
    let mut result = Result { lengths, expressions, lists, stats };
    proof {
        assert(result.wf());
        assert(search_inv(result, remaining, inputs@));
    }
    // L2 at rank 1: all unordered pairs of distinct rank-0 functions. The
    // rank-0 frontier never changes again, so the coverage established here —
    // all five combinations of every pair within one gate — survives the rest
    // of the search.
    let ghost seeds_list = result.lists@[0int]@;
    let n0 = result.lists[0].len();
    let mut gi: usize = 0;
    while gi < n0
        invariant
            search_inv(result, remaining, inputs@),
            result.lists@.len() == 2,
            seeds_list == result.lists@[0int]@,
            n0 == seeds_list.len(),
            forall|k: int| 0 <= k < seeds_list.len() ==> (#[trigger] seeds_list[k]).valid(),
            gi <= n0,
            forall|v: int|
                0 <= v < NUM_FUNCTIONS ==> (result.lengths@[v] == 0 || result.lengths@[v] == 1
                    || result.lengths@[v] == INFINITY),
            rank_one_witnesses_in_frontier(result, seeds_list),
            forall|a: int, b: int|
                0 <= a < b < n0 && a < gi ==> pair_covered(
                    result.lengths@,
                    seeds_list[a],
                    seeds_list[b],
                ),
        decreases n0 - gi,
    {
        let mut hi: usize = gi + 1;
        while hi < n0
            invariant
                search_inv(result, remaining, inputs@),
                result.lists@.len() == 2,
                seeds_list == result.lists@[0int]@,
                n0 == seeds_list.len(),
                forall|k: int| 0 <= k < seeds_list.len() ==> (#[trigger] seeds_list[k]).valid(),
                gi < n0,
                gi + 1 <= hi <= n0,
                forall|v: int|
                    0 <= v < NUM_FUNCTIONS ==> (result.lengths@[v] == 0 || result.lengths@[v] == 1
                        || result.lengths@[v] == INFINITY),
                rank_one_witnesses_in_frontier(result, seeds_list),
                forall|a: int, b: int|
                    0 <= a < b < n0 && a < gi ==> pair_covered(
                        result.lengths@,
                        seeds_list[a],
                        seeds_list[b],
                    ),
                forall|b: int|
                    gi < b < hi && b < n0 ==> pair_covered(
                        result.lengths@,
                        seeds_list[gi as int],
                        seeds_list[b],
                    ),
            decreases n0 - hi,
    {
            let g = result.lists[0][gi];
            let h = result.lists[0][hi];
            let ghost before = result;
            proof {
                assert(list_wf(result.lists@[0int]@, result.lengths@, 0));
                assert(result.lengths@[g.0 as int] == 0);
                assert(result.lengths@[h.0 as int] == 0);
            }
            combine_pair(&mut result, &mut remaining, g, h, 1);
            proof {
                assert forall|v: int|
                    0 <= v < NUM_FUNCTIONS implies (result.lengths@[v] == 0 || result.lengths@[v]
                    == 1 || result.lengths@[v] == INFINITY) by {
                    assert(before.lengths@[v] == 0 || before.lengths@[v] == 1 || before.lengths@[v]
                        == INFINITY);
                }
                assert forall|v: int|
                    0 <= v < NUM_FUNCTIONS && #[trigger] result.lengths@[v]
                        == 1 implies result.expressions@[v]@.len() == 1 && witness_pairs_frontier(
                    result.expressions@[v]@[0],
                    seeds_list,
                ) by {
                    if before.lengths@[v] == 1 {
                        assert(before.expressions@[v]@.len() == 1 && witness_pairs_frontier(
                            before.expressions@[v]@[0],
                            seeds_list,
                        ));
                        assert(result.expressions@[v] == before.expressions@[v]);
                    } else {
                        assert(before.lengths@[v] == INFINITY);
                        assert(result.expressions@[v]@.len() == 1
                            && result.expressions@[v]@[0].left() == g
                            && result.expressions@[v]@[0].right() == h);
                        assert((seeds_list[gi as int]) == result.expressions@[v]@[0].left() && (
                        seeds_list[hi as int]) == result.expressions@[v]@[0].right());
                        assert(witness_pairs_frontier(result.expressions@[v]@[0], seeds_list));
                    }
                }
                assert(rank_one_witnesses_in_frontier(result, seeds_list));
                assert(pair_covered(result.lengths@, g, h)) by {
                    Expression::And(g, h).lemma_eval_valid();
                    Expression::Or(g, h).lemma_eval_valid();
                    Expression::Xor(g, h).lemma_eval_valid();
                    Expression::ButNot(g, h).lemma_eval_valid();
                    Expression::NotBut(g, h).lemma_eval_valid();
                }
                assert forall|a: int, b: int|
                    0 <= a < b < n0 && a < gi implies pair_covered(
                    result.lengths@,
                    seeds_list[a],
                    seeds_list[b],
                ) by {
                    assert(pair_covered(before.lengths@, seeds_list[a], seeds_list[b]));
                    Expression::And(seeds_list[a], seeds_list[b]).lemma_eval_valid();
                    Expression::Or(seeds_list[a], seeds_list[b]).lemma_eval_valid();
                    Expression::Xor(seeds_list[a], seeds_list[b]).lemma_eval_valid();
                    Expression::ButNot(seeds_list[a], seeds_list[b]).lemma_eval_valid();
                    Expression::NotBut(seeds_list[a], seeds_list[b]).lemma_eval_valid();
                }
                assert forall|b: int|
                    gi < b < hi + 1 && b < n0 implies pair_covered(
                    result.lengths@,
                    seeds_list[gi as int],
                    seeds_list[b],
                ) by {
                    if b < hi {
                        assert(pair_covered(before.lengths@, seeds_list[gi as int], seeds_list[b]));
                        Expression::And(seeds_list[gi as int], seeds_list[b]).lemma_eval_valid();
                        Expression::Or(seeds_list[gi as int], seeds_list[b]).lemma_eval_valid();
                        Expression::Xor(seeds_list[gi as int], seeds_list[b]).lemma_eval_valid();
                        Expression::ButNot(seeds_list[gi as int], seeds_list[b]).lemma_eval_valid();
                        Expression::NotBut(seeds_list[gi as int], seeds_list[b]).lemma_eval_valid();
                    } else {
                        assert(seeds_list[gi as int] == g && seeds_list[b] == h);
                    }
                }
            }
            hi = hi + 1;
        }
        gi = gi + 1;
    }
    proof {
        assert forall|a: int, b: int| 0 <= a < b < seeds_list.len() implies pair_covered(
            result.lengths@,
            seeds_list[a],
            seeds_list[b],
        ) by {}
        assert(all_pairs_covered(result.lengths@, seeds_list));
    }
    let mut max_rank: usize = 0;
    if result.lists[1].len() > 0 {
        max_rank = 1;
    }
    // L2 at ranks r = 2, 3, ...: combine every pair of reached functions
    // whose lengths sum to r - 1. Stop as soon as nothing is unreached, no
    // rank beyond twice the highest productive rank can produce anything new,
    // or ranks exceed the size of the function space (no minimal derivation
    // is that long).
    let mut r: usize = 2;
    while remaining > 0 && r <= 2 * max_rank + 1 && r < NUM_FUNCTIONS
        invariant
            search_inv(result, remaining, inputs@),
            2 <= r <= NUM_FUNCTIONS,
            max_rank < r,
            result.lists@.len() == r,
            result.lists@[0int]@ == seeds_list,
            forall|rr: int|
                max_rank < rr < result.lists@.len() ==> (#[trigger] result.lists@[rr])@.len()
                    == 0,
            forall|k: int| 0 <= k < seeds_list.len() ==> (#[trigger] seeds_list[k]).valid(),
            all_pairs_covered(result.lengths@, seeds_list),
            rank_one_witnesses_in_frontier(result, seeds_list),
        decreases NUM_FUNCTIONS - r,
    {
        // Open the rank-r frontier.
        let ghost pre = result;
        result.lists.push(Vec::new());
        result.stats.push(0);
        proof {
            assert forall|rr: int| 0 <= rr < result.lists@.len() implies list_wf(
                (#[trigger] result.lists@[rr])@,
                result.lengths@,
                rr,
            ) by {
                if rr < pre.lists@.len() {
                    assert(result.lists@[rr] == pre.lists@[rr]);
                    assert(list_wf(pre.lists@[rr]@, pre.lengths@, rr));
                } else {
                    assert(result.lists@[rr]@.len() == 0);
                }
            }
            assert forall|rr: int| 0 <= rr < result.lists@.len() implies result.stats@[rr] == (
            #[trigger] result.lists@[rr])@.len() + (if rr == 0 {
                1int
            } else {
                0int
            }) by {
                if rr < pre.lists@.len() {
                    assert(result.lists@[rr] == pre.lists@[rr]);
                    assert(result.stats@[rr] == pre.stats@[rr]);
                } else {
                    assert(result.lists@[rr]@.len() == 0);
                }
            }
            assert(result.wf());
            assert(result.lengths@ == pre.lengths@);
            assert(search_inv(result, remaining, inputs@));
            assert forall|rr: int|
                max_rank < rr < result.lists@.len() && rr != r implies (
            #[trigger] result.lists@[rr])@.len() == 0 by {
                assert(result.lists@[rr] == pre.lists@[rr]);
            }
        }
        // L3. Ranks j and k = r - 1 - j of the two operands, with j <= k.
        let mut j: usize = 0;
        while j <= (r - 1) / 2
            invariant
                search_inv(result, remaining, inputs@),
                2 <= r <= NUM_FUNCTIONS,
                result.lists@.len() == r + 1,
                max_rank < r,
                forall|rr: int|
                    max_rank < rr < result.lists@.len() && rr != r ==> (
                    #[trigger] result.lists@[rr])@.len() == 0,
                j <= (r - 1) / 2 + 1,
                result.lists@[0int]@ == seeds_list,
                forall|k: int| 0 <= k < seeds_list.len() ==> (#[trigger] seeds_list[k]).valid(),
                all_pairs_covered(result.lengths@, seeds_list),
                rank_one_witnesses_in_frontier(result, seeds_list),
            decreases (r - 1) / 2 + 1 - j,
        {
            let k = r - 1 - j;
            // L4. All pairs g, h from the rank-j and rank-k frontiers. When
            // j == k, the second index starts past the first: unordered
            // pairs, no self-pairing.
            let mut gi: usize = 0;
            while gi < result.lists[j].len()
                invariant
                    search_inv(result, remaining, inputs@),
                    2 <= r <= NUM_FUNCTIONS,
                    result.lists@.len() == r + 1,
                    max_rank < r,
                    forall|rr: int|
                        max_rank < rr < result.lists@.len() && rr != r ==> (
                        #[trigger] result.lists@[rr])@.len() == 0,
                    j <= (r - 1) / 2,
                    k == r - 1 - j,
                    result.lists@[0int]@ == seeds_list,
                    forall|k2: int|
                        0 <= k2 < seeds_list.len() ==> (#[trigger] seeds_list[k2]).valid(),
                    all_pairs_covered(result.lengths@, seeds_list),
                    rank_one_witnesses_in_frontier(result, seeds_list),
                decreases result.lists@[j as int]@.len() - gi,
            {
                let ghost rank_j_len = result.lists@[j as int]@.len();
                let start_hi = if j == k {
                    gi + 1
                } else {
                    0
                };
                let mut hi = start_hi;
                while hi < result.lists[k].len()
                    invariant
                        search_inv(result, remaining, inputs@),
                        2 <= r <= NUM_FUNCTIONS,
                        result.lists@.len() == r + 1,
                        max_rank < r,
                        forall|rr: int|
                            max_rank < rr < result.lists@.len() && rr != r ==> (
                            #[trigger] result.lists@[rr])@.len() == 0,
                        j <= (r - 1) / 2,
                        k == r - 1 - j,
                        result.lists@[j as int]@.len() == rank_j_len,
                        gi < result.lists@[j as int]@.len(),
                        result.lists@[0int]@ == seeds_list,
                        forall|k2: int|
                            0 <= k2 < seeds_list.len() ==> (#[trigger] seeds_list[k2]).valid(),
                        all_pairs_covered(result.lengths@, seeds_list),
                        rank_one_witnesses_in_frontier(result, seeds_list),
                    decreases result.lists@[k as int]@.len() - hi,
                {
                    let g = result.lists[j][gi];
                    let h = result.lists[k][hi];
                    let ghost before = result;
                    proof {
                        assert(list_wf(result.lists@[j as int]@, result.lengths@, j as int));
                        assert(list_wf(result.lists@[k as int]@, result.lengths@, k as int));
                        assert(result.lengths@[g.0 as int] == j as int);
                        assert(result.lengths@[h.0 as int] == k as int);
                    }
                    // L5, L6. The five combinations of g and h; each new one
                    // is assigned length r.
                    combine_pair(&mut result, &mut remaining, g, h, r as u32);
                    proof {
                        lemma_zero_lengths_preserved(before.lengths@, result.lengths@, inputs@);
                        lemma_coverage_preserved(before.lengths@, result.lengths@, seeds_list);
                        assert forall|v: int|
                            0 <= v < NUM_FUNCTIONS && #[trigger] result.lengths@[v]
                                == 1 implies before.lengths@[v] == 1 by {
                            assert(result.lengths@[v] == before.lengths@[v] || (
                            before.lengths@[v] == INFINITY && result.lengths@[v] == r));
                        }
                        lemma_rank_one_witnesses_preserved(before, result, seeds_list);
                        assert(result.lists@[j as int] == before.lists@[j as int]);
                        assert(result.lists@[k as int] == before.lists@[k as int]);
                        assert forall|rr: int|
                            max_rank < rr < result.lists@.len() && rr != r implies (
                        #[trigger] result.lists@[rr])@.len() == 0 by {
                            assert(result.lists@[rr] == before.lists@[rr]);
                        }
                        assert(search_inv(result, remaining, inputs@));
                    }
                    hi = hi + 1;
                }
                gi = gi + 1;
            }
            j = j + 1;
        }
        if result.lists[r].len() > 0 {
            max_rank = r;
        }
        r = r + 1;
    }
    proof {
        if remaining > 0 && r < NUM_FUNCTIONS {
            assert(r > 2 * max_rank + 1);
            assert forall|rr1: int, rr2: int|
                0 <= rr1 < result.lists@.len() && 0 <= rr2 < result.lists@.len() && (
                #[trigger] result.lists@[rr1])@.len() > 0 && (
                #[trigger] result.lists@[rr2])@.len() > 0 implies rr1 + rr2 + 1
                < result.lists@.len() by {
                assert(rr1 <= max_rank && rr2 <= max_rank);
            }
        }
        assert(forall|v: int|
            0 <= v < result.lengths@.len() ==> ((result.lengths@[v] == 0) <==> (v == 0
                || is_seed_table(inputs@, v))));
        assert(result.lengths@[0] == 0);
        assert forall|m: int|
            0 <= m < inputs@.len() implies result.lengths@[(#[trigger] inputs@[m]).0 as int]
            == 0 by {
            assert(is_seed_table(inputs@, inputs@[m].0 as int));
        }
        // One rank of closure. A combination of two seed tables either
        // collapses to an operand or the zero constant (cost 0), or is one of
        // the five combinations of a pair from the rank-0 frontier, which the
        // first rank covered.
        assert forall|e: Expression|
            (#[trigger] e.is_combination()) && e.valid_operands() && is_seed_table(
                inputs@,
                e.left().0 as int,
            ) && is_seed_table(inputs@, e.right().0 as int) implies result.lengths@[e.spec_eval()
            as int] <= 1 by {
            let lv = e.left().0;
            let rv = e.right().0;
            e.lemma_eval_valid();
            lemma_op_facts(lv, rv);
            lemma_op_facts(rv, lv);
            assert(result.lengths@[lv as int] == 0);
            assert(result.lengths@[rv as int] == 0);
            if lv == 0 || rv == 0 || lv == rv {
                assert(e.spec_eval() == 0 || e.spec_eval() == lv || e.spec_eval() == rv);
            } else {
                let m1 = choose|m: int|
                    0 <= m < inputs@.len() && (#[trigger] inputs@[m]).0 == lv as int;
                let m2 = choose|m: int|
                    0 <= m < inputs@.len() && (#[trigger] inputs@[m]).0 == rv as int;
                let a = choose|idx: int|
                    0 <= idx < seeds_list.len() && seeds_list[idx].0 == inputs@[m1].0;
                let b = choose|idx: int|
                    0 <= idx < seeds_list.len() && seeds_list[idx].0 == inputs@[m2].0;
                assert(seeds_list[a].0 == lv && seeds_list[b].0 == rv);
                assert(seeds_list[a] == e.left() && seeds_list[b] == e.right());
                assert(a != b);
                if a < b {
                    assert(pair_covered(result.lengths@, seeds_list[a], seeds_list[b]));
                } else {
                    assert(pair_covered(result.lengths@, seeds_list[b], seeds_list[a]));
                }
            }
        }
    }
    result
}

} // verus!
