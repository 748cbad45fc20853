use regular_propagators::cdfa::{Bound, Cdfa};
use regular_propagators::cdfa_checker::{ext_less_equal, CheckerAtomic, ExtendedInt};
use regular_propagators::cdfa_checker_tables::{compute_qcb_and_qcf_for_check, compute_qcf_for_check};
use regular_propagators::cdfa_tables::{combine_table, compute_qcb_and_qcf, compute_qcf};
use regular_propagators::regular_cdfa::{regular_cdfa, Predicate, RegularCdfaPropagatorConstructor};

// Two states over the symbols {1, 2}: each symbol leads to the state of its own
// number, and symbol 2 costs 1, so the count is the number of 2s.
fn count_twos(sequence: Vec<&'static str>) -> RegularCdfaPropagatorConstructor<&'static str, &'static str> {
    regular_cdfa(sequence, 2, 2, vec![vec![1, 2], vec![1, 2]], 1, vec![vec![0, 1], vec![0, 1]], "c")
}

fn count_twos_automaton() -> Cdfa {
    Cdfa::new(2, 2, &vec![vec![1, 2], vec![1, 2]], 1, &vec![vec![0, 1], vec![0, 1]])
}

fn pairs(p: &regular_propagators::regular_cdfa::CdfaPropagation) -> Vec<(usize, i32)> {
    p.removals.iter().map(|r| (r.variable, r.value)).collect()
}

#[test]
fn cdfa_is_stored_zero_based() {
    let c = count_twos_automaton();
    assert_eq!(c.num_states(), 2);
    assert_eq!(c.num_inputs(), 2);
    assert_eq!(c.initial_state(), 0);
    assert_eq!(c.next_state(0, 1), 1);
    assert_eq!(c.next_state(1, 0), 0);
    assert_eq!(c.step_cost(0, 1), 1);
    assert_eq!(c.step_cost(1, 0), 0);
}

#[test]
fn constructor_keeps_the_description() {
    let c = count_twos(vec!["x0", "x1"]);
    assert_eq!(c.sequence, vec!["x0", "x1"]);
    assert_eq!(c.num_states, 2);
    assert_eq!(c.num_inputs, 2);
    assert_eq!(c.initial_state, 1);
    assert_eq!(c.inc, vec![vec![0, 1], vec![0, 1]]);
    assert_eq!(c.count, "c");
}

#[test]
fn count_fixed_to_two_forces_every_two() {
    let prop = count_twos(vec!["x0", "x1"]).create();
    let result = prop.propagate_from_scratch(&vec![vec![1, 2], vec![1, 2]], 2, 2, &vec![]);
    assert_eq!(pairs(&result), vec![(0, 1), (1, 1)]);
    for r in &result.removals {
        assert!(r.reason.iter().any(|p| matches!(p, Predicate::CountAtLeast(2))));
        assert!(r.reason.iter().any(|p| matches!(p, Predicate::CountAtMost(2))));
        assert!(r
            .reason
            .iter()
            .all(|p| matches!(p, Predicate::CountAtLeast(2) | Predicate::CountAtMost(2))));
    }
    assert_eq!(result.count_lower_bound, 2);
    assert_eq!(result.count_upper_bound, 2);
    assert_eq!(result.count_reason.len(), 2);
    assert!(result.count_reason.iter().any(|p| matches!(p, Predicate::SequenceNotEqual(0, 1))));
    assert!(result.count_reason.iter().any(|p| matches!(p, Predicate::SequenceNotEqual(1, 1))));
}

#[test]
fn holes_inside_a_range_join_the_reason() {
    let prop = count_twos(vec!["x0", "x1"]).create();
    let result = prop.propagate_from_scratch(&vec![vec![1, 2], vec![1, 2]], 2, 2, &vec![1, 7]);
    assert_eq!(pairs(&result), vec![(0, 1), (1, 1)]);
    for r in &result.removals {
        assert!(r.reason.iter().any(|p| matches!(p, Predicate::CountNotEqual(1))));
        assert!(!r.reason.iter().any(|p| matches!(p, Predicate::CountNotEqual(7))));
    }
}

#[test]
fn wide_count_bounds_prune_nothing() {
    let prop = count_twos(vec!["x0", "x1", "x2"]).create();
    let result = prop.propagate_from_scratch(&vec![vec![1, 2], vec![1, 2], vec![1, 2]], 0, 3, &vec![]);
    assert!(result.removals.is_empty());
    assert_eq!(result.count_lower_bound, 0);
    assert_eq!(result.count_upper_bound, 3);
}

#[test]
fn count_bounds_follow_the_domains() {
    let prop = count_twos(vec!["x0", "x1", "x2"]).create();
    let result = prop.propagate_from_scratch(&vec![vec![2], vec![1, 2], vec![1]], 0, 5, &vec![]);
    assert!(result.removals.is_empty());
    assert_eq!(result.count_lower_bound, 1);
    assert_eq!(result.count_upper_bound, 2);
    // The values taken away are part of the count's reason.
    assert_eq!(result.count_reason.len(), 2);
    assert!(result.count_reason.iter().any(|p| matches!(p, Predicate::SequenceNotEqual(0, 1))));
    assert!(result.count_reason.iter().any(|p| matches!(p, Predicate::SequenceNotEqual(2, 2))));
}

#[test]
fn unreachable_count_removes_everything() {
    let prop = count_twos(vec!["x0", "x1"]).create();
    let result = prop.propagate_from_scratch(&vec![vec![1, 2], vec![1, 2]], 5, 6, &vec![]);
    assert_eq!(pairs(&result), vec![(0, 1), (0, 2), (1, 1), (1, 2)]);
    assert_eq!(result.count_lower_bound, u32::MAX as i32);
    assert_eq!(result.count_upper_bound, 0);
}

#[test]
fn removed_symbol_predicates_list_the_missing_values() {
    let prop = count_twos(vec!["x0", "x1"]).create();
    let preds = prop.get_removed_symbol_predicates(&vec![vec![2], vec![1, 2]]);
    assert_eq!(preds.len(), 1);
    assert!(matches!(preds[0], Predicate::SequenceNotEqual(0, 1)));
}

#[test]
fn count_bounds_from_the_last_row() {
    let prop = count_twos(vec!["x0"]).create();
    let table = vec![vec![(0, 0)], vec![(0, 3), (1, 1)]];
    assert_eq!(prop.propagate_lb_count(&table), 1);
    assert_eq!(prop.propagate_ub_count(&table), 3);
    let empty = vec![vec![(0, 0)], vec![]];
    assert_eq!(prop.propagate_lb_count(&empty), u32::MAX as i32);
    assert_eq!(prop.propagate_ub_count(&empty), 0);
    // Costs beyond the range of an `i32` wrap around.
    let large = vec![vec![(0, 0)], vec![(0, 3_000_000_000)]];
    assert_eq!(prop.propagate_lb_count(&large), 3_000_000_000u32 as i32);
    assert_eq!(prop.propagate_ub_count(&large), 3_000_000_000u32 as i32);
}

#[test]
fn forward_table_is_sorted_by_state() {
    let c = count_twos_automaton();
    let symbols: Vec<Vec<usize>> = vec![vec![1, 0], vec![1, 0]];
    let mut min_table = Vec::new();
    compute_qcf(&symbols, &c, &mut min_table, Bound::Min, 2);
    assert_eq!(min_table, vec![vec![(0, 0)], vec![(0, 0), (1, 1)], vec![(0, 0), (1, 1)]]);
    let mut max_table = Vec::new();
    compute_qcf(&symbols, &c, &mut max_table, Bound::Max, 2);
    assert_eq!(max_table, vec![vec![(0, 0)], vec![(0, 0), (1, 1)], vec![(0, 1), (1, 2)]]);
}

#[test]
fn backward_table_counts_from_the_end() {
    let c = count_twos_automaton();
    let symbols: Vec<Vec<usize>> = vec![vec![0, 1], vec![0, 1]];
    let mut qcb = Vec::new();
    let mut qcf = Vec::new();
    compute_qcb_and_qcf(&symbols, &c, &mut qcb, &mut qcf, Bound::Max, 0);
    assert_eq!(qcf.len(), 3);
    assert_eq!(qcb.len(), 3);
    // Past the last variable: the states reached, at cost 0.
    assert_eq!(qcb[0], vec![(0, 0), (1, 0)]);
    // One variable left: at most one more 2.
    assert_eq!(qcb[1], vec![(0, 1), (1, 1)]);
    // Any state can read two more symbols.
    assert_eq!(qcb[2], vec![(0, 2), (1, 2)]);
}

#[test]
fn combine_table_joins_rows_by_state() {
    let table = combine_table(&vec![(0, 1), (2, 3), (4, 0)], &vec![(0, 5), (3, 3), (4, 9)]);
    assert_eq!(table, vec![(0, 1, 5), (4, 0, 9)]);
}

#[test]
fn checker_tables_hold_both_costs_of_every_state() {
    let c = count_twos_automaton();
    let symbols: Vec<Vec<usize>> = vec![vec![0, 1], vec![0, 1]];
    let mut qcf = Vec::new();
    compute_qcf_for_check(&symbols, &c, &mut qcf, 2);
    assert_eq!(
        qcf,
        vec![vec![(0, (0, 0))], vec![(0, (0, 0)), (1, (1, 1))], vec![(0, (0, 1)), (1, (1, 2))]]
    );
    let mut qcf2 = Vec::new();
    let mut qcb = Vec::new();
    compute_qcb_and_qcf_for_check(&symbols, &c, &mut qcf2, &mut qcb, 0);
    assert_eq!(qcf2, qcf);
    assert_eq!(qcb.len(), 3);
    assert_eq!(qcb[0], vec![(0, (0, 0)), (1, (0, 0))]);
    assert_eq!(qcb[1], vec![(0, (0, 1)), (1, (0, 1))]);
    assert_eq!(qcb[2], vec![(0, (0, 2)), (1, (0, 2))]);
}

#[test]
fn checker_tables_keep_the_first_state() {
    // One state, numbered 0 inside, looping on its only symbol at no cost.
    let c = Cdfa::new(1, 1, &vec![vec![1]], 1, &vec![vec![0]]);
    let mut qcf = Vec::new();
    compute_qcf_for_check(&vec![vec![0]], &c, &mut qcf, 1);
    assert_eq!(qcf, vec![vec![(0, (0, 0))], vec![(0, (0, 0))]]);
}

#[test]
fn extended_integers_order_the_infinities_outside() {
    assert!(ext_less_equal(ExtendedInt::NegativeInfinity, ExtendedInt::Int(-5)));
    assert!(ext_less_equal(ExtendedInt::Int(5), ExtendedInt::PositiveInfinity));
    assert!(ext_less_equal(ExtendedInt::Int(2), ExtendedInt::Int(2)));
    assert!(!ext_less_equal(ExtendedInt::Int(3), ExtendedInt::Int(2)));
    assert!(!ext_less_equal(ExtendedInt::PositiveInfinity, ExtendedInt::Int(2)));
    assert!(!ext_less_equal(ExtendedInt::Int(2), ExtendedInt::NegativeInfinity));
}

#[test]
fn checker_states_what_each_value_may_be() {
    let checker = count_twos(vec!["x0", "x1"]).add_inference_checkers();
    let atomics = checker.check(&vec![vec![1, 2], vec![1, 2]], ExtendedInt::Int(0), ExtendedInt::Int(5));
    assert_eq!(atomics.len(), 6);
    assert!(matches!(atomics[0], CheckerAtomic::SequenceEqual(0, 1)));
    assert!(matches!(atomics[1], CheckerAtomic::SequenceEqual(0, 2)));
    assert!(matches!(atomics[2], CheckerAtomic::SequenceEqual(1, 1)));
    assert!(matches!(atomics[3], CheckerAtomic::SequenceEqual(1, 2)));
    assert!(matches!(atomics[4], CheckerAtomic::CountGreaterThan(0)));
    assert!(matches!(atomics[5], CheckerAtomic::CountLessThan(2)));
    // Count fixed to 1: exactly one 2, so both values stay possible everywhere.
    let atomics = checker.check(&vec![vec![1, 2], vec![1, 2]], ExtendedInt::Int(1), ExtendedInt::Int(1));
    assert!(atomics[..4].iter().all(|a| matches!(a, CheckerAtomic::SequenceEqual(_, _))));
    // A word through the first state only: "1 1", count 0.
    let atomics = checker.check(&vec![vec![1], vec![1]], ExtendedInt::Int(0), ExtendedInt::Int(0));
    assert!(matches!(atomics[0], CheckerAtomic::SequenceEqual(0, 1)));
    assert!(matches!(atomics[1], CheckerAtomic::SequenceEqual(1, 1)));
    assert!(matches!(atomics[2], CheckerAtomic::CountGreaterThan(0)));
    assert!(matches!(atomics[3], CheckerAtomic::CountLessThan(0)));
}

#[test]
fn checker_rejects_values_outside_the_count_bounds() {
    let checker = count_twos(vec!["x0", "x1"]).add_inference_checkers();
    let atomics = checker.check(&vec![vec![2], vec![2]], ExtendedInt::NegativeInfinity, ExtendedInt::Int(1));
    assert_eq!(atomics.len(), 4);
    assert!(matches!(atomics[0], CheckerAtomic::SequenceNotEqual(0, 2)));
    assert!(matches!(atomics[1], CheckerAtomic::SequenceNotEqual(1, 2)));
    assert!(matches!(atomics[2], CheckerAtomic::CountGreaterThan(2)));
    assert!(matches!(atomics[3], CheckerAtomic::CountLessThan(2)));
}

#[test]
fn forward_rows_come_out_in_state_order() {
    // Six states; symbol l leads to the state l + 1 (1-based) at cost l.
    let row: Vec<i32> = (1..=6).collect();
    let inc: Vec<i32> = (0..6).collect();
    let c = Cdfa::new(6, 6, &vec![row.clone(); 6], 1, &vec![inc; 6]);
    let symbols: Vec<Vec<usize>> = vec![vec![5, 3, 1, 0, 4, 2]];
    let mut table = Vec::new();
    compute_qcf(&symbols, &c, &mut table, Bound::Min, 1);
    assert_eq!(table[1], vec![(0, 0), (1, 1), (2, 2), (3, 3), (4, 4), (5, 5)]);
}

#[test]
fn propagation_keeps_every_word_within_the_count() {
    // Words of length three with one or two 2s.
    let prop = count_twos(vec!["x0", "x1", "x2"]).create();
    let domains = vec![vec![1, 2], vec![2], vec![1, 2]];
    let result = prop.propagate_from_scratch(&domains, 1, 2, &vec![]);
    for word in [[1, 2, 1], [1, 2, 2], [2, 2, 1]] {
        for (i, v) in word.iter().enumerate() {
            assert!(!pairs(&result).contains(&(i, *v)));
        }
        let total = word.iter().filter(|v| **v == 2).count() as i32;
        assert!(result.count_lower_bound <= total && total <= result.count_upper_bound);
    }
    // "2 2 2" has three 2s: not a solution, but each of its values is in one.
    assert!(result.removals.is_empty());
    assert_eq!((result.count_lower_bound, result.count_upper_bound), (1, 3));
}

#[test]
fn cdfa_propagator_is_named() {
    assert_eq!(count_twos(vec!["x0"]).create().name(), "RegularCdfaPropagator");
}

#[test]
fn positions_past_the_end_stop_at_the_end() {
    let c = count_twos_automaton();
    let symbols: Vec<Vec<usize>> = vec![vec![0, 1], vec![0, 1]];
    let mut qcf = Vec::new();
    compute_qcf(&symbols, &c, &mut qcf, Bound::Min, 7);
    assert_eq!(qcf.len(), 3);
    let mut qcb = Vec::new();
    let mut qcf2 = Vec::new();
    compute_qcb_and_qcf(&symbols, &c, &mut qcb, &mut qcf2, Bound::Max, 7);
    assert_eq!(qcb, vec![vec![(0, 0), (1, 0)]]);
    // A backward table with more rows than the position asks for is left alone.
    let mut full = vec![vec![(0, 0)], vec![(0, 1)]];
    compute_qcb_and_qcf(&symbols, &c, &mut full, &mut qcf2, Bound::Max, 1);
    assert_eq!(full, vec![vec![(0, 0)], vec![(0, 1)]]);
}

#[test]
fn removed_symbol_predicates_come_by_variable_then_value() {
    let prop = count_twos(vec!["x0", "x1"]).create();
    let preds = prop.get_removed_symbol_predicates(&vec![vec![], vec![2]]);
    assert_eq!(preds.len(), 3);
    assert!(matches!(preds[0], Predicate::SequenceNotEqual(0, 1)));
    assert!(matches!(preds[1], Predicate::SequenceNotEqual(0, 2)));
    assert!(matches!(preds[2], Predicate::SequenceNotEqual(1, 1)));
}

#[test]
fn entries_past_the_declared_table_are_never_read() {
    let declared = count_twos(vec!["x0", "x1"]).create();
    let wider = regular_cdfa(
        vec!["x0", "x1"],
        2,
        2,
        vec![vec![1, 2, 9], vec![1, 2, 9], vec![5, 5, 5]],
        1,
        vec![vec![0, 1, 7], vec![0, 1, 7], vec![3, 3, 3]],
        "c",
    )
    .create();
    for (lb, ub) in [(2, 2), (0, 1), (0, 5)] {
        let a = declared.propagate_from_scratch(&vec![vec![1, 2], vec![1, 2]], lb, ub, &vec![]);
        let b = wider.propagate_from_scratch(&vec![vec![1, 2], vec![1, 2]], lb, ub, &vec![]);
        assert_eq!(format!("{:?}", a), format!("{:?}", b));
    }
}

#[test]
fn checker_tables_combine_the_propagator_tables() {
    let c = count_twos_automaton();
    let symbols: Vec<Vec<usize>> = vec![vec![0, 1], vec![1], vec![0]];
    let mut qcf = Vec::new();
    let mut qcb = Vec::new();
    compute_qcb_and_qcf_for_check(&symbols, &c, &mut qcf, &mut qcb, 0);
    let mut min_qcf = Vec::new();
    let mut min_qcb = Vec::new();
    compute_qcb_and_qcf(&symbols, &c, &mut min_qcb, &mut min_qcf, Bound::Min, 0);
    let mut max_qcf = Vec::new();
    let mut max_qcb = Vec::new();
    compute_qcb_and_qcf(&symbols, &c, &mut max_qcb, &mut max_qcf, Bound::Max, 0);
    assert_eq!(qcf.len(), 4);
    assert_eq!(qcb.len(), 4);
    for k in 0..4 {
        let forward: Vec<(u32, (u32, u32))> =
            combine_table(&min_qcf[k], &max_qcf[k]).into_iter().map(|(q, a, b)| (q, (a, b))).collect();
        assert_eq!(qcf[k], forward);
        let backward: Vec<(u32, (u32, u32))> =
            combine_table(&min_qcb[k], &max_qcb[k]).into_iter().map(|(q, a, b)| (q, (a, b))).collect();
        assert_eq!(qcb[k], backward);
    }
    // After "1 or 2, then 2": the count is one or two 2s.
    assert_eq!(qcf[2], vec![(1, (1, 2))]);
}
