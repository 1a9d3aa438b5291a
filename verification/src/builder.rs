use vstd::prelude::*;

use crate::algorithm_l_extended::{
    all_pairs_registered, chain_has_table, find_upper_bounds_and_footprints, first_expression_ok,
    pair_exhausted, pair_registered, Result,
};
use crate::chain::Chain;
use crate::expression::Expression;
use crate::function::{Function, NUM_FUNCTIONS};

verus! {

/// Number of outstanding targets, among the first `t`, whose footprints
/// contain witness id `i`. A target the chain already computes is not
/// outstanding and counts for nothing.
pub open spec fn spec_frequency(res: Result, chain: Chain, i: u32, t: int) -> nat
    decreases t,
{
    if t <= 0 {
        0
    } else {
        spec_frequency(res, chain, i, t - 1) + if !chain_has_table(
            chain,
            chain.targets@[t - 1].0 as int,
        ) && res.footprints@[chain.targets@[t - 1].0 as int]@.contains(i) {
            1nat
        } else {
            0nat
        }
    }
}

/// The frequency over `t` targets never exceeds `t`.
proof fn lemma_frequency_le(res: Result, chain: Chain, i: u32, t: int)
    requires
        t >= 0,
    ensures
        spec_frequency(res, chain, i, t) <= t,
    decreases t,
{
    if t > 0 {
        lemma_frequency_le(res, chain, i, t - 1);
    }
}

/// For every witness id, counts across how many outstanding (not yet
/// realized) target functions it appears in the footprint: the frequency
/// score the greedy builder ranks witnesses by.
pub fn count_first_expressions_in_footprints(algorithm_result: &Result, chain: &Chain) -> (freq:
    Vec<u32>)
    requires
        algorithm_result.wf(),
        chain.wf(),
        chain.targets@.len() <= 0xffff_ffff,
    ensures
        freq@.len() == algorithm_result.first_expressions@.len(),
        forall|i: int|
            0 <= i < freq@.len() ==> freq@[i] == spec_frequency(
                *algorithm_result,
                *chain,
                i as u32,
                chain.targets@.len() as int,
            ),
{
    let n = algorithm_result.first_expressions.len();
    let mut freq: Vec<u32> = Vec::new();
    while freq.len() < n
        invariant
            freq@.len() <= n,
            forall|i: int| 0 <= i < freq@.len() ==> freq@[i] == 0,
        decreases n - freq@.len(),
    {
        freq.push(0);
    }
    proof {
        assert forall|i: int| 0 <= i < freq@.len() implies freq@[i] == spec_frequency(
            *algorithm_result,
            *chain,
            i as u32,
            0,
        ) by {}
    }
    let num_targets = chain.targets.len();
    for t in 0..num_targets
        invariant
            algorithm_result.wf(),
            chain.wf(),
            num_targets == chain.targets@.len(),
            num_targets <= 0xffff_ffff,
            n == algorithm_result.first_expressions@.len(),
            freq@.len() == n,
            forall|i: int|
                0 <= i < freq@.len() ==> freq@[i] == spec_frequency(
                    *algorithm_result,
                    *chain,
                    i as u32,
                    t as int,
                ),
    {
        let f = chain.targets[t];
        let outstanding = chain.function_lookup(f).is_none();
        if outstanding {
            let fi = f.index();
            let ghost pre = freq@;
            let mut i: usize = 0;
            while i < n
                invariant
                    algorithm_result.wf(),
                    chain.wf(),
                    num_targets == chain.targets@.len(),
                    num_targets <= 0xffff_ffff,
                    (t as int) < num_targets,
                    n == algorithm_result.first_expressions@.len(),
                    freq@.len() == n,
                    pre.len() == n,
                    i <= n,
                    fi == chain.targets@[t as int].0,
                    !chain_has_table(*chain, fi as int),
                    forall|ii: int|
                        0 <= ii < freq@.len() ==> freq@[ii] == pre[ii] + if ii < i
                            && algorithm_result.footprints@[fi as int]@.contains(ii as u32) {
                            1int
                        } else {
                            0int
                        },
                    forall|ii: int|
                        0 <= ii < pre.len() ==> pre[ii] == spec_frequency(
                            *algorithm_result,
                            *chain,
                            ii as u32,
                            t as int,
                        ),
                decreases n - i,
            {
                let present = algorithm_result.footprints[fi].get(i as u32);
                if present {
                    proof {
                        lemma_frequency_le(*algorithm_result, *chain, i as u32, t as int);
                        assert(freq@[i as int] == pre[i as int]);
                        assert(pre[i as int] <= t);
                    }
                    let c = freq[i];
                    freq[i] = c + 1;
                }
                i = i + 1;
            }
            proof {
                assert forall|ii: int| 0 <= ii < freq@.len() implies freq@[ii] == spec_frequency(
                    *algorithm_result,
                    *chain,
                    ii as u32,
                    t + 1,
                ) by {
                    assert(freq@[ii] == pre[ii] + if algorithm_result.footprints@[fi
                        as int]@.contains(ii as u32) {
                        1int
                    } else {
                        0int
                    });
                }
            }
        } else {
            proof {
                assert forall|ii: int| 0 <= ii < freq@.len() implies freq@[ii] == spec_frequency(
                    *algorithm_result,
                    *chain,
                    ii as u32,
                    t + 1,
                ) by {
                    assert(chain_has_table(*chain, chain.targets@[t as int].0 as int));
                }
            }
        }
    }
    freq
}

/// The index the greedy selection picks: the highest frequency, with the
/// later index winning ties.
pub open spec fn best_index(freq: Seq<u32>) -> int
    decreases freq.len(),
{
    if freq.len() <= 1 {
        0
    } else {
        let b = best_index(freq.drop_last());
        if freq.last() >= freq[b] {
            freq.len() - 1
        } else {
            b
        }
    }
}

/// The picked index is in range and carries the maximal frequency; every
/// later index is strictly smaller.
pub proof fn lemma_best_index(freq: Seq<u32>)
    requires
        freq.len() >= 1,
    ensures
        0 <= best_index(freq) < freq.len(),
        forall|j: int| 0 <= j < freq.len() ==> #[trigger] freq[j] <= freq[best_index(freq)],
        forall|j: int|
            best_index(freq) < j < freq.len() ==> #[trigger] freq[j] < freq[best_index(freq)],
    decreases freq.len(),
{
    if freq.len() > 1 {
        lemma_best_index(freq.drop_last());
        assert(forall|j: int| 0 <= j < freq.len() - 1 ==> freq.drop_last()[j] == freq[j]);
    }
}

/// Selects the most useful next gate: the first expression whose witness id
/// scores the highest frequency across outstanding targets, later ids winning
/// ties (a fixed deterministic order, keeping the procedure reproducible).
pub fn pick_best_expression(first_expressions: &Vec<Expression>, frequencies: &Vec<u32>) -> (best:
    Expression)
    requires
        first_expressions@.len() == frequencies@.len(),
        first_expressions@.len() >= 1,
    ensures
        best == first_expressions@[best_index(frequencies@)],
{
    let n = frequencies.len();
    let mut bi: usize = 0;
    let mut i: usize = 1;
    while i < n
        invariant
            n == frequencies@.len(),
            1 <= i <= n,
            bi < i,
            bi == best_index(frequencies@.subrange(0, i as int)),
        decreases n - i,
    {
        proof {
            let sub = frequencies@.subrange(0, i + 1);
            assert(sub.drop_last() =~= frequencies@.subrange(0, i as int));
            assert(sub.last() == frequencies@[i as int]);
            lemma_best_index(sub.drop_last());
        }
        if frequencies[i] >= frequencies[bi] {
            bi = i;
        }
        i = i + 1;
    }
    proof {
        assert(frequencies@.subrange(0, n as int) =~= frequencies@);
        lemma_best_index(frequencies@);
    }
    first_expressions[bi]
}

/// The set of tables the chain computes; it grows strictly with every gate
/// the builder appends, which is why the building loop cannot run forever.
pub open spec fn chain_table_set(chain: Chain) -> Set<int> {
    Set::new(|v: int| 0 <= v < NUM_FUNCTIONS && chain_has_table(chain, v))
}

/// The chain's table set is finite and no larger than the function space.
proof fn lemma_chain_table_set_bound(chain: Chain)
    ensures
        chain_table_set(chain).finite(),
        chain_table_set(chain).len() <= NUM_FUNCTIONS,
{
    vstd::set_lib::lemma_int_range(0, NUM_FUNCTIONS as int);
    vstd::set_lib::lemma_len_subset(
        chain_table_set(chain),
        vstd::set_lib::set_int_range(0, NUM_FUNCTIONS as int),
    );
}

/// Greedy chain building: runs the upper-bound search against the chain's
/// current contents, scores every witness by how many outstanding targets
/// depend on it, appends the best witness's expression, and repeats until
/// every target is in the chain. Returns whether the chain got solved; a
/// chain whose outstanding targets no candidate gate can serve stops
/// unsolved. A chain that is already solved is returned untouched, after zero
/// iterations.
pub fn build_chain(chain: &mut Chain) -> (solved: bool)
    requires
        old(chain).wf(),
        old(chain).targets@.len() <= 0xffff_ffff,
    ensures
        final(chain).wf(),
        final(chain).targets@ == old(chain).targets@,
        solved == final(chain).spec_solved(),
        old(chain).spec_solved() ==> (*final(chain) == *old(chain) && solved),
        // The chain only grows: every step it had is still there, in place.
        final(chain).expressions@.len() >= old(chain).expressions@.len(),
        forall|i: int|
            0 <= i < old(chain).expressions@.len() ==> final(chain).expressions@[i] == old(
                chain,
            ).expressions@[i],
        // The builder gives up only when it is truly stuck: no combination of
        // two chain positions computes anything the chain does not already
        // have.
        !solved ==> forall|a: int, b: int|
            0 <= a < b < final(chain).expressions@.len() ==> pair_exhausted(*final(chain), a, b),
{
    proof {
        lemma_chain_table_set_bound(*old(chain));
    }
    loop
        invariant
            chain.wf(),
            chain.targets@ == old(chain).targets@,
            chain.targets@.len() <= 0xffff_ffff,
            old(chain).spec_solved() ==> *chain == *old(chain),
            chain_table_set(*chain).finite(),
            chain_table_set(*chain).len() <= NUM_FUNCTIONS,
            chain.expressions@.len() >= old(chain).expressions@.len(),
            forall|i: int|
                0 <= i < old(chain).expressions@.len() ==> chain.expressions@[i] == old(
                    chain,
                ).expressions@[i],
        decreases NUM_FUNCTIONS - chain_table_set(*chain).len(),
    {
        if chain.is_solved() {
            return true;
        }
        let result = find_upper_bounds_and_footprints(chain);
        let frequencies = count_first_expressions_in_footprints(&result, chain);
        if result.first_expressions.len() == 0 {
            // No pair of chain functions yields anything new: the greedy
            // procedure cannot make progress.
            proof {
                assert(all_pairs_registered(result.first_expressions@, *chain));
                assert(forall|a: int, b: int|
                    0 <= a < b < chain.expressions@.len() ==> pair_registered(
                        result.first_expressions@,
                        *chain,
                        a,
                        b,
                    ));
                assert forall|a: int, b: int|
                    0 <= a < b < chain.expressions@.len() implies pair_exhausted(
                    *chain,
                    a,
                    b,
                ) by {
                    assert(pair_registered(result.first_expressions@, *chain, a, b));
                    assert(forall|e: Expression|
                        !result.first_expressions@.contains(e)) by {
                        assert(result.first_expressions@.len() == 0);
                    }
                }
            }
            return false;
        }
        let expr = pick_best_expression(&result.first_expressions, &frequencies);
        proof {
            lemma_best_index(frequencies@);
            assert(first_expression_ok(*chain, expr));
        }
        let ghost before = *chain;
        chain.add(expr);
        proof {
            assert forall|v: int|
                chain_has_table(*chain, v) <==> (chain_has_table(before, v) || v
                    == expr.spec_eval() as int) by {
                if chain_has_table(*chain, v) {
                    let i = choose|i: int|
                        0 <= i < chain.expressions@.len() && (
                        #[trigger] chain.expressions@[i]).function.0 == v;
                    if i < before.expressions@.len() {
                        assert(before.expressions@[i].function.0 == v);
                    }
                }
                if chain_has_table(before, v) {
                    let i = choose|i: int|
                        0 <= i < before.expressions@.len() && (
                        #[trigger] before.expressions@[i]).function.0 == v;
                    assert(chain.expressions@[i].function.0 == v);
                }
                if v == expr.spec_eval() as int {
                    assert(chain.expressions@.last().function.0 == v);
                }
            }
            let e = expr.spec_eval() as int;
            expr.lemma_eval_valid();
            assert(chain_table_set(*chain) =~= chain_table_set(before).insert(e));
            assert(!chain_table_set(before).contains(e));
            lemma_chain_table_set_bound(*chain);
        }
    }
}

} // verus!
