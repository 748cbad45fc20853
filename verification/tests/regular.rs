use regular_propagators::automaton::{DFA, NFA};
use regular_propagators::checker::{RegularChecker, RegularNfaChecker};
use regular_propagators::regular::{
    Propagation, RegularNfaPropagatorConstructor, RegularPropagatorConstructor, Removal,
};

// Two states over the letters {1, 2}: state 1 is initial, state 2 accepting,
// and every letter leads to the state of its own number, so the accepted
// words are those that end in 2.
fn ends_in_two_dfa() -> DFA {
    DFA::from(2, 2, vec![vec![1, 2], vec![1, 2]], 1, vec![2])
}

fn ends_in_two_transition_matrix() -> Vec<Vec<i32>> {
    vec![vec![1, 2], vec![1, 2]]
}

fn ends_in_two(sequence: Vec<&'static str>) -> RegularPropagatorConstructor<&'static str> {
    RegularPropagatorConstructor {
        sequence,
        num_states: 2,
        num_inputs: 2,
        transition_matrix: ends_in_two_transition_matrix(),
        initial_state: 1,
        accepting_states: vec![2],
    }
}

fn apply(domains: &mut Vec<Vec<i32>>, removals: &[Removal]) {
    for r in removals {
        domains[r.variable].retain(|v| *v != r.value);
    }
}

/// Propagates until nothing more is pruned; `None` on a conflict.
fn propagate_to_fixed_point(
    prop: &regular_propagators::regular::RegularPropagator<&'static str>,
    domains: &mut Vec<Vec<i32>>,
) -> Option<()> {
    loop {
        match prop.propagate_from_scratch(domains) {
            Propagation::Conflict(_) => return None,
            Propagation::Prune(rs) => {
                if rs.is_empty() {
                    return Some(());
                }
                apply(domains, &rs);
            }
        }
    }
}

fn bounds(domain: &[i32]) -> (i32, i32) {
    (*domain.iter().min().unwrap(), *domain.iter().max().unwrap())
}

#[test]
fn last_letter_propagated_to_two_on_length_two() {
    let prop = ends_in_two(vec!["x0", "x1"]).create();
    let mut domains = vec![vec![1, 2], vec![1, 2]];
    propagate_to_fixed_point(&prop, &mut domains).expect("no empty domains");
    assert_eq!(bounds(&domains[0]), (1, 2));
    assert_eq!(bounds(&domains[1]), (2, 2));
}

#[test]
fn only_last_letter_is_forced_on_length_three() {
    let prop = ends_in_two(vec!["x0", "x1", "x2"]).create();
    let mut domains = vec![vec![1, 2], vec![1, 2], vec![1, 2]];
    propagate_to_fixed_point(&prop, &mut domains).expect("no empty domains");
    assert_eq!(bounds(&domains[0]), (1, 2));
    assert_eq!(bounds(&domains[1]), (1, 2));
    assert_eq!(bounds(&domains[2]), (2, 2));
}

#[test]
fn conflict_when_last_letter_pre_assigned_one() {
    let prop = ends_in_two(vec!["x0", "x1"]).create();
    let mut domains = vec![vec![1, 2], vec![1]];
    assert!(propagate_to_fixed_point(&prop, &mut domains).is_none());
}

#[test]
fn conflict_detected_on_unsatisfiable_premise() {
    // x1 = 1: no accepted word ends in 1.
    let checker = RegularChecker { sequence: vec!["x0", "x1"], dfa: ends_in_two_dfa() };
    assert!(checker.check(&vec![vec![1, 2], vec![1]]));
}

#[test]
fn no_conflict_detected_on_satisfiable_premise() {
    // x0 = 2 with x1 free: the word "2 2" is accepted.
    let checker = RegularChecker { sequence: vec!["x0", "x1"], dfa: ends_in_two_dfa() };
    assert!(!checker.check(&vec![vec![2], vec![1, 2]]));
}

#[test]
fn conflict_detected_on_valid_premise_consequent() {
    // x0 = 1 together with the negated consequent x1 != 2.
    let checker = RegularChecker { sequence: vec!["x0", "x1"], dfa: ends_in_two_dfa() };
    assert!(checker.check(&vec![vec![1], vec![1]]));
}

#[test]
fn dfa_from_reads_the_one_based_table() {
    let dfa = DFA::from(3, 2, vec![vec![2, 0], vec![3, -1], vec![3, 3]], 1, vec![3, 3]);
    assert_eq!(dfa.states, 3);
    assert_eq!(dfa.alphabet, vec![1, 2]);
    assert_eq!(dfa.transitions, vec![vec![2, 0], vec![3, 0], vec![3, 3]]);
    assert_eq!(dfa.starting_state, 1);
    assert_eq!(dfa.accepting_states, vec![3]);
}

#[test]
fn nfa_from_keeps_the_positive_targets() {
    let nfa = NFA::from(2, 2, vec![vec![vec![1, 2], vec![0]], vec![vec![-3, 2], vec![]]], 1, vec![2, 1, 2]);
    assert_eq!(nfa.states, 2);
    assert_eq!(nfa.alphabet, vec![1, 2]);
    assert_eq!(nfa.transitions, vec![vec![vec![1, 2], vec![]], vec![vec![2], vec![]]]);
    assert_eq!(nfa.targets(1, 1), vec![1, 2]);
    assert_eq!(nfa.targets(2, 1), vec![2]);
    assert_eq!(nfa.targets(3, 1), Vec::<usize>::new());
    assert_eq!(nfa.targets(1, 3), Vec::<usize>::new());
    let mut accepting = nfa.accepting_states.clone();
    accepting.sort();
    assert_eq!(accepting, vec![1, 2]);
}

#[test]
fn dfa_to_nfa_lists_each_target() {
    let nfa = ends_in_two_dfa().to_nfa();
    assert_eq!(nfa.transitions, vec![vec![vec![1], vec![2]], vec![vec![1], vec![2]]]);
    assert_eq!(nfa.starting_state, 1);
    assert_eq!(nfa.accepting_states, vec![2]);
}

#[test]
fn propagation_removes_the_unsupported_value_without_reason() {
    let prop = ends_in_two(vec!["x0", "x1"]).create();
    match prop.propagate_from_scratch(&vec![vec![1, 2], vec![1, 2]]) {
        Propagation::Prune(rs) => {
            assert_eq!(rs.len(), 1);
            assert_eq!((rs[0].variable, rs[0].value), (1, 1));
            assert!(rs[0].reason.is_empty());
        }
        Propagation::Conflict(_) => panic!("expected pruning"),
    }
}

#[test]
fn propagation_explains_removals_by_the_values_taken_away() {
    // Accepts "1 2" only: state 1 -1-> 2 -2-> 3, state 3 accepting.
    let prop = RegularPropagatorConstructor {
        sequence: vec!["x0", "x1"],
        num_states: 3,
        num_inputs: 2,
        transition_matrix: vec![vec![2, 0], vec![0, 3], vec![0, 0]],
        initial_state: 1,
        accepting_states: vec![3],
    }
    .create();
    match prop.propagate_from_scratch(&vec![vec![1, 2], vec![1, 2]]) {
        Propagation::Prune(rs) => {
            let pairs: Vec<(usize, i32)> = rs.iter().map(|r| (r.variable, r.value)).collect();
            assert_eq!(pairs, vec![(0, 2), (1, 1)]);
        }
        Propagation::Conflict(_) => panic!("expected pruning"),
    }
    // With x0 = 2 the only word is out of reach: a conflict, explained by x0 != 1.
    match prop.propagate_from_scratch(&vec![vec![2], vec![1, 2]]) {
        Propagation::Conflict(reason) => assert_eq!(reason, vec![(0, 1)]),
        Propagation::Prune(_) => panic!("expected a conflict"),
    }
}

#[test]
fn propagation_prunes_nothing_twice() {
    let prop = ends_in_two(vec!["x0", "x1", "x2"]).create();
    let mut domains = vec![vec![1, 2], vec![1, 2], vec![1, 2]];
    match prop.propagate_from_scratch(&domains) {
        Propagation::Prune(rs) => apply(&mut domains, &rs),
        Propagation::Conflict(_) => panic!("expected pruning"),
    }
    match prop.propagate_from_scratch(&domains) {
        Propagation::Prune(rs) => assert!(rs.is_empty()),
        Propagation::Conflict(_) => panic!("expected no conflict"),
    }
}

#[test]
fn empty_sequence_is_a_conflict_for_the_propagator() {
    let prop = ends_in_two(vec![]).create();
    assert!(matches!(prop.propagate_from_scratch(&vec![]), Propagation::Conflict(_)));
    // The checker only asks whether the initial state accepts.
    let checker = ends_in_two(vec![]).add_inference_checkers();
    assert!(checker.check(&vec![]));
    let accepting_start = RegularPropagatorConstructor {
        sequence: Vec::<&'static str>::new(),
        num_states: 2,
        num_inputs: 2,
        transition_matrix: ends_in_two_transition_matrix(),
        initial_state: 1,
        accepting_states: vec![1],
    };
    assert!(!accepting_start.add_inference_checkers().check(&vec![]));
    assert!(matches!(accepting_start.create().propagate_from_scratch(&vec![]), Propagation::Conflict(_)));
}

#[test]
fn checker_agrees_with_propagator() {
    let constructor = ends_in_two(vec!["x0", "x1"]);
    let checker = constructor.add_inference_checkers();
    let prop = constructor.create();
    for domains in [
        vec![vec![1, 2], vec![1, 2]],
        vec![vec![1], vec![1]],
        vec![vec![2], vec![2]],
        vec![vec![1, 2], vec![1]],
    ] {
        let conflict = matches!(prop.propagate_from_scratch(&domains), Propagation::Conflict(_));
        assert_eq!(conflict, checker.check(&domains));
    }
}

#[test]
fn pruning_keeps_every_accepted_word() {
    let prop = ends_in_two(vec!["x0", "x1"]).create();
    let mut domains = vec![vec![1, 2], vec![1, 2]];
    match prop.propagate_from_scratch(&domains) {
        Propagation::Prune(rs) => apply(&mut domains, &rs),
        Propagation::Conflict(_) => panic!("expected pruning"),
    }
    for word in [[1, 2], [2, 2]] {
        assert!(domains[0].contains(&word[0]) && domains[1].contains(&word[1]));
    }
}

// An NFA over {1, 2} accepting the words whose second to last letter is 1:
// state 1 loops on both letters and guesses on 1 to go to state 2, state 2
// moves to the accepting state 3 on either letter.
fn second_to_last_is_one(sequence: Vec<&'static str>) -> RegularNfaPropagatorConstructor<&'static str> {
    RegularNfaPropagatorConstructor {
        sequence,
        num_states: 3,
        num_inputs: 2,
        transition_matrix: vec![vec![vec![1, 2], vec![1]], vec![vec![3], vec![3]], vec![vec![], vec![]]],
        initial_state: 1,
        accepting_states: vec![3],
    }
}

#[test]
fn nfa_propagation_forces_the_second_to_last_letter() {
    let prop = second_to_last_is_one(vec!["x0", "x1", "x2"]).create();
    match prop.propagate_from_scratch(&vec![vec![1, 2], vec![1, 2], vec![1, 2]]) {
        Propagation::Prune(rs) => {
            let pairs: Vec<(usize, i32)> = rs.iter().map(|r| (r.variable, r.value)).collect();
            assert_eq!(pairs, vec![(1, 2)]);
        }
        Propagation::Conflict(_) => panic!("expected pruning"),
    }
    assert!(matches!(
        prop.propagate_from_scratch(&vec![vec![1, 2], vec![2], vec![1, 2]]),
        Propagation::Conflict(_)
    ));
}

#[test]
fn nfa_checker_finds_words_through_guesses() {
    let checker = RegularNfaChecker { sequence: vec!["x0", "x1"], nfa: second_to_last_is_one(vec!["x0", "x1"]).add_inference_checkers().nfa };
    assert!(!checker.check(&vec![vec![1], vec![2]]));
    assert!(checker.check(&vec![vec![2], vec![1, 2]]));
}

#[test]
fn nfa_pruning_keeps_words_and_reaches_a_fixpoint() {
    let constructor = second_to_last_is_one(vec!["x0", "x1", "x2"]);
    let checker = constructor.add_inference_checkers();
    let prop = constructor.create();
    let mut domains = vec![vec![1, 2], vec![1, 2], vec![2]];
    match prop.propagate_from_scratch(&domains) {
        Propagation::Prune(rs) => apply(&mut domains, &rs),
        Propagation::Conflict(_) => panic!("expected pruning"),
    }
    // The accepted words "1 1 2" and "2 1 2" still fit.
    assert_eq!(domains, vec![vec![1, 2], vec![1], vec![2]]);
    match prop.propagate_from_scratch(&domains) {
        Propagation::Prune(rs) => assert!(rs.is_empty()),
        Propagation::Conflict(_) => panic!("expected no conflict"),
    }
    assert!(!checker.check(&domains));
}

#[test]
fn propagators_are_named() {
    assert_eq!(ends_in_two(vec!["x0"]).create().name(), "RegularDFAPropagator");
    assert_eq!(second_to_last_is_one(vec!["x0"]).create().name(), "RegularNFAPropagator");
}

#[test]
fn pruning_reasons_name_values_taken_away() {
    // Accepts "1 2" and "2 1"; x1 = 1 leaves x0 = 2 alone.
    let prop = RegularPropagatorConstructor {
        sequence: vec!["x0", "x1"],
        num_states: 4,
        num_inputs: 2,
        transition_matrix: vec![vec![2, 3], vec![0, 4], vec![4, 0], vec![0, 0]],
        initial_state: 1,
        accepting_states: vec![4],
    }
    .create();
    match prop.propagate_from_scratch(&vec![vec![1, 2], vec![1]]) {
        Propagation::Prune(rs) => {
            assert_eq!(rs.len(), 1);
            assert_eq!((rs[0].variable, rs[0].value), (0, 1));
            assert_eq!(rs[0].reason, vec![(1, 2)]);
        }
        Propagation::Conflict(_) => panic!("expected pruning"),
    }
}

fn ends_in_two_as_nfa(sequence: Vec<&'static str>) -> RegularNfaPropagatorConstructor<&'static str> {
    RegularNfaPropagatorConstructor {
        sequence,
        num_states: 2,
        num_inputs: 2,
        transition_matrix: vec![vec![vec![1], vec![2]], vec![vec![1], vec![2]]],
        initial_state: 1,
        accepting_states: vec![2],
    }
}

#[test]
fn single_target_nfa_is_the_dfa() {
    let dfa = ends_in_two_dfa();
    let nfa = NFA::from(2, 2, vec![vec![vec![1], vec![2]], vec![vec![1], vec![2]]], 1, vec![2]);
    assert_eq!(nfa.states, dfa.states);
    assert_eq!(nfa.alphabet, dfa.alphabet);
    assert_eq!(nfa.starting_state, dfa.starting_state);
    assert_eq!(nfa.accepting_states, dfa.accepting_states);
    for q in 0..2 {
        for a in 0..2 {
            assert_eq!(nfa.transitions[q][a], vec![dfa.transitions[q][a]]);
        }
    }
}

#[test]
fn dfa_and_nfa_propagators_answer_alike() {
    let sequence = vec!["x0", "x1", "x2"];
    let dfa_prop = ends_in_two(sequence.clone()).create();
    let nfa_prop = ends_in_two_as_nfa(sequence).create();
    let cases = vec![
        vec![vec![1, 2], vec![1, 2], vec![1, 2]],
        vec![vec![1], vec![1, 2], vec![1, 2]],
        vec![vec![2], vec![2], vec![1]],
    ];
    for domains in cases {
        let a = dfa_prop.propagate_from_scratch(&domains);
        let b = nfa_prop.propagate_from_scratch(&domains);
        assert_eq!(format!("{:?}", a), format!("{:?}", b));
    }
}
