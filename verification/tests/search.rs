use boolean_chains::algorithm_l::{find_normal_lengths, record_candidate};
use boolean_chains::algorithm_l_extended::find_upper_bounds_and_footprints;
use boolean_chains::builder::{
    build_chain, count_first_expressions_in_footprints, pick_best_expression,
};
use boolean_chains::chain::{Chain, ChainExpression};
use boolean_chains::counting::INFINITY;
use boolean_chains::expression::Expression;
use boolean_chains::function::Function;

fn two_variable_seeds() -> Vec<Function> {
    // The two input variables of a two-variable scenario: the tables for a
    // and b over the four inputs, written in the low four table bits.
    vec![Function::new(0b1010), Function::new(0b1100)]
}

#[test]
fn lengths_of_zero_and_seeds_are_zero() {
    let seeds = vec![
        Function::new(0),
        Function::new(0b1010),
        Function::new(0b1100),
    ];
    let result = find_normal_lengths(&seeds);
    assert_eq!(result.lengths[0], 0);
    for f in &seeds {
        assert_eq!(result.lengths[f.index()], 0);
    }
    // Nothing else costs nothing.
    let mut zero_count = 0;
    for v in 0..result.lengths.len() {
        if result.lengths[v] == 0 {
            zero_count += 1;
        }
    }
    assert_eq!(zero_count, 3);
}

#[test]
fn exact_search_two_variables_matches_reference_lengths() {
    let result = find_normal_lengths(&two_variable_seeds());
    // Seeds and the zero constant cost nothing.
    assert_eq!(result.lengths[0b0000], 0);
    assert_eq!(result.lengths[0b1010], 0);
    assert_eq!(result.lengths[0b1100], 0);
    // Every function reachable under the five operators costs one gate.
    assert_eq!(result.lengths[0b1000], 1); // a AND b
    assert_eq!(result.lengths[0b1110], 1); // a OR b
    assert_eq!(result.lengths[0b0110], 1); // a XOR b
    assert_eq!(result.lengths[0b0010], 1); // a BUTNOT b
    assert_eq!(result.lengths[0b0100], 1); // a NOTBUT b
    // The remaining four-input tables are unreachable: the five operators
    // all preserve a zero in the table's lowest bit.
    for v in [0b0001, 0b0011, 0b0101, 0b0111, 0b1001, 0b1011, 0b1101, 0b1111] {
        assert_eq!(result.lengths[v], INFINITY);
    }
    // Rank statistics: three values at rank 0 (zero plus two seeds), five at
    // rank 1.
    assert_eq!(result.stats[0], 3);
    assert_eq!(result.stats[1], 5);
}

#[test]
fn exact_search_records_witness_expression() {
    let seeds = two_variable_seeds();
    let result = find_normal_lengths(&seeds);
    // a AND b is reached at length 1, witnessed by And(a, b).
    assert_eq!(result.lengths[0b1000], 1);
    assert_eq!(
        result.expressions[0b1000],
        vec![Expression::And(seeds[0], seeds[1])]
    );
    assert_eq!(result.expressions[0b0100], vec![Expression::NotBut(seeds[0], seeds[1])]);
    // Unreached and cost-0 values carry no witness.
    assert!(result.expressions[0b1111].is_empty());
    assert!(result.expressions[0b1010].is_empty());
}

#[test]
fn record_candidate_is_a_no_op_on_assigned_functions() {
    let seeds = two_variable_seeds();
    let mut result = find_normal_lengths(&seeds);
    // a AND b already has its length; re-running the inner step on it must
    // change nothing at all.
    let lengths_before = result.lengths.clone();
    let witnesses_before = result.expressions[0b1000].clone();
    let list1_before = result.lists[1].clone();
    let mut remaining: u32 = result.lengths.iter().filter(|&&x| x == INFINITY).count() as u32;
    let remaining_before = remaining;
    record_candidate(
        &mut result,
        &mut remaining,
        Expression::And(seeds[0], seeds[1]),
        1,
    );
    assert_eq!(result.lengths, lengths_before);
    assert_eq!(result.expressions[0b1000], witnesses_before);
    assert_eq!(result.lists[1], list1_before);
    assert_eq!(remaining, remaining_before);
}

fn two_variable_chain(targets: Vec<Function>) -> Chain {
    let mut chain = Chain::new(&targets);
    chain.add(Expression::Constant(Function::new(0b1010)));
    chain.add(Expression::Constant(Function::new(0b1100)));
    chain
}

#[test]
fn upper_bounds_start_at_zero_for_chain_functions() {
    let chain = two_variable_chain(vec![Function::new(0b1000)]);
    let result = find_upper_bounds_and_footprints(&chain);
    assert_eq!(result.upper_bounds[0], 0);
    assert_eq!(result.upper_bounds[0b1010], 0);
    assert_eq!(result.upper_bounds[0b1100], 0);
    // Every pairwise combination of the two inputs is a bound-1 candidate,
    // registered once each in pair order.
    assert_eq!(result.first_expressions.len(), 5);
    assert_eq!(
        result.first_expressions[0],
        Expression::And(Function::new(0b1010), Function::new(0b1100))
    );
    assert_eq!(result.upper_bounds[0b1000], 1);
    assert_eq!(result.upper_bounds[0b1110], 1);
    assert_eq!(result.upper_bounds[0b0110], 1);
    assert_eq!(result.upper_bounds[0b0010], 1);
    assert_eq!(result.upper_bounds[0b0100], 1);
    // Each candidate's footprint is the singleton of its own witness id.
    assert!(result.footprints[0b1000].get(0));
    assert!(!result.footprints[0b1000].get(1));
    assert!(result.footprints[0b0100].get(4));
}

#[test]
fn upper_bounds_never_beat_exact_lengths() {
    // Same seed set for both searches; the heuristic bound must never be
    // better than the exact length, for any function value.
    let chain = two_variable_chain(vec![]);
    let bounds = find_upper_bounds_and_footprints(&chain);
    let lengths = find_normal_lengths(&two_variable_seeds());
    for v in 0..lengths.lengths.len() {
        assert!(bounds.upper_bounds[v] >= lengths.lengths[v]);
    }
}

#[test]
fn chain_lookup_keeps_first_occurrence_after_duplicate_append() {
    let mut chain = two_variable_chain(vec![]);
    chain.add(Expression::And(Function::new(0b1010), Function::new(0b1100)));
    let f = Function::new(0b1000);
    assert_eq!(chain.function_lookup(f), Some(2));
    // Appending another expression computing the same function keeps the
    // lookup pointing at the earliest position.
    chain.add(Expression::And(Function::new(0b1100), Function::new(0b1010)));
    assert_eq!(chain.expressions.len(), 4);
    assert_eq!(chain.expressions[3].function, f);
    assert_eq!(chain.function_lookup(f), Some(2));
}

#[test]
fn chain_renders_names_tables_and_target_marker() {
    let mut chain = two_variable_chain(vec![Function::new(0b1000)]);
    chain.add(Expression::And(Function::new(0b1010), Function::new(0b1100)));
    assert_eq!(chain.get_name(&chain.expressions[0]), "x1");
    assert_eq!(chain.get_name(&chain.expressions[2]), "x3");
    assert_eq!(chain.get_name_for_function(Function::new(0b1100)), "x2");
    assert_eq!(chain.get_name_for_function(Function::new(0b0111)), "unknown");
    assert_eq!(
        chain.get_expression_as_str(&chain.expressions[0]),
        "x1 = 0000000000001010"
    );
    assert_eq!(
        chain.get_expression_as_str(&chain.expressions[2]),
        "x3 = x1 & x2 = 0000000000001000 [target]"
    );
}

#[test]
fn chain_renders_untargeted_combination_without_marker() {
    let mut chain = two_variable_chain(vec![]);
    chain.add(Expression::Xor(Function::new(0b1010), Function::new(0b1100)));
    assert_eq!(
        chain.get_expression_as_str(&chain.expressions[2]),
        "x3 = x1 ^ x2 = 0000000000000110"
    );
}

#[test]
fn chain_expression_records_its_evaluation() {
    let ce = ChainExpression::new(
        4,
        Expression::Or(Function::new(0b1010), Function::new(0b1100)),
    );
    assert_eq!(ce.index, 4);
    assert_eq!(ce.function, Function::new(0b1110));
}

#[test]
fn solved_chain_builds_in_zero_iterations() {
    // The target set is a subset of the initial seeds: already solved, so the
    // builder terminates at once and appends nothing.
    let mut chain = two_variable_chain(vec![Function::new(0b1010)]);
    assert!(chain.is_solved());
    assert_eq!(chain.num_fulfilled_targets(), 1);
    let solved = build_chain(&mut chain);
    assert!(solved);
    assert_eq!(chain.expressions.len(), 2);
}

#[test]
fn builder_appends_best_witness_until_solved() {
    let mut chain = two_variable_chain(vec![Function::new(0b1000)]);
    assert!(!chain.is_solved());
    let solved = build_chain(&mut chain);
    assert!(solved);
    assert_eq!(chain.expressions.len(), 3);
    assert_eq!(chain.expressions[2].function, Function::new(0b1000));
    assert_eq!(
        chain.expressions[2].expression,
        Expression::And(Function::new(0b1010), Function::new(0b1100))
    );
}

#[test]
fn builder_stops_unsolved_on_unreachable_target() {
    // The tautology has a one in the lowest table bit; the five operators
    // cannot produce it from these inputs.
    let mut chain = two_variable_chain(vec![Function::new(0b1111)]);
    let solved = build_chain(&mut chain);
    assert!(!solved);
}

#[test]
fn frequencies_count_outstanding_targets_per_witness() {
    // Targets: a AND b (outstanding) and one of the seeds (already in the
    // chain, so it counts for nothing).
    let chain = two_variable_chain(vec![Function::new(0b1000), Function::new(0b1010)]);
    let result = find_upper_bounds_and_footprints(&chain);
    let freq = count_first_expressions_in_footprints(&result, &chain);
    assert_eq!(freq.len(), 5);
    assert_eq!(freq[0], 1);
    assert_eq!(&freq[1..], &[0, 0, 0, 0]);
}

#[test]
fn pick_best_expression_prefers_later_ids_on_ties() {
    let a = Function::new(0b1010);
    let b = Function::new(0b1100);
    let exprs = vec![
        Expression::And(a, b),
        Expression::Or(a, b),
        Expression::Xor(a, b),
        Expression::ButNot(a, b),
    ];
    let freqs = vec![2, 5, 5, 1];
    assert_eq!(pick_best_expression(&exprs, &freqs), Expression::Xor(a, b));
    let freqs2 = vec![7, 5, 5, 1];
    assert_eq!(pick_best_expression(&exprs, &freqs2), Expression::And(a, b));
}

#[test]
fn fulfilled_target_count_is_exact_on_partially_solved_chains() {
    // One target already computed, one outstanding, one duplicated.
    let mut chain = two_variable_chain(vec![
        Function::new(0b1010),
        Function::new(0b1000),
        Function::new(0b1010),
    ]);
    assert_eq!(chain.num_fulfilled_targets(), 2);
    chain.add(Expression::And(Function::new(0b1010), Function::new(0b1100)));
    assert_eq!(chain.num_fulfilled_targets(), 3);
}

#[test]
fn builder_keeps_existing_steps_and_gives_up_only_when_stuck() {
    // The tautology is unreachable here, so the builder must give up — with
    // the original steps intact and every pair combination stale.
    let mut chain = two_variable_chain(vec![Function::new(0b1111)]);
    let before: Vec<Function> = chain.expressions.iter().map(|ce| ce.function).collect();
    let solved = build_chain(&mut chain);
    assert!(!solved);
    for (i, f) in before.iter().enumerate() {
        assert_eq!(chain.expressions[i].function, *f);
    }
    // Give-up condition: no pair of chain positions computes anything new.
    for a in 0..chain.expressions.len() {
        for b in (a + 1)..chain.expressions.len() {
            let g = chain.expressions[a].function;
            let h = chain.expressions[b].function;
            for e in [
                Expression::And(g, h),
                Expression::Or(g, h),
                Expression::Xor(g, h),
                Expression::ButNot(g, h),
                Expression::NotBut(g, h),
            ] {
                let v = e.evaluate();
                assert!(v.0 == 0 || chain.function_lookup(v).is_some());
            }
        }
    }
}

#[test]
fn exact_search_runs_past_every_feedable_rank() {
    // With much of the space unreachable, the search must stop only once no
    // pair of nonempty frontiers can feed a rank it has not processed: the
    // two nonempty frontiers are ranks 0 and 1, so ranks up to 3 were run.
    let result = find_normal_lengths(&two_variable_seeds());
    assert!(result.lists[0].len() > 0 && result.lists[1].len() > 0);
    assert!(result.lists.len() >= 4);
    for r in 2..result.lists.len() {
        assert!(result.lists[r].is_empty());
    }
}
