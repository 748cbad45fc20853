use regular_propagators::automaton::{DFA, NFA};
use regular_propagators::layered_graph::LayeredGraph;

fn ends_in_two_dfa() -> DFA {
    DFA::from(2, 2, vec![vec![1, 2], vec![1, 2]], 1, vec![2])
}

fn sorted(mut v: Vec<i32>) -> Vec<i32> {
    v.sort();
    v
}

#[test]
fn graph_holds_the_nodes_of_accepted_words() {
    let graph = LayeredGraph::from(ends_in_two_dfa(), 2);
    // (layer 0, state 1), (layer 1, states 1 and 2), (layer 2, state 2).
    assert_eq!(graph.count_nodes(), 4);
    assert!(graph.is_consistent());
    assert_eq!(sorted(graph.living_values(0)), vec![1, 2]);
    assert_eq!(graph.living_values(1), vec![2]);
}

#[test]
fn killing_the_only_last_letter_empties_the_graph() {
    let mut graph = LayeredGraph::from(ends_in_two_dfa(), 2);
    graph.kill_value(1, 2);
    assert!(!graph.is_consistent());
    assert!(graph.living_values(0).is_empty());
    assert!(graph.living_values(1).is_empty());
    // Dead nodes stay in their layers.
    assert_eq!(graph.count_nodes(), 4);
}

#[test]
fn killing_a_first_letter_keeps_the_other() {
    let mut graph = LayeredGraph::from(ends_in_two_dfa(), 2);
    graph.kill_value(0, 1);
    assert!(graph.is_consistent());
    assert_eq!(graph.living_values(0), vec![2]);
    assert_eq!(graph.living_values(1), vec![2]);
}

#[test]
fn duplicate_is_independent_of_its_source() {
    let graph = LayeredGraph::from(ends_in_two_dfa(), 2);
    let mut copy = graph.duplicate();
    copy.kill_value(1, 2);
    assert!(graph.is_consistent());
    assert!(!copy.is_consistent());
}

#[test]
fn empty_sequence_graph_is_not_consistent() {
    let graph = LayeredGraph::from(ends_in_two_dfa(), 0);
    assert!(!graph.is_consistent());
}

#[test]
fn letter_index_is_the_position_in_the_alphabet() {
    let graph = LayeredGraph::from(DFA::from(1, 3, vec![vec![1, 1, 1]], 1, vec![1]), 1);
    assert_eq!(graph.letter_index(1), 0);
    assert_eq!(graph.letter_index(3), 2);
}

#[test]
fn explanation_names_the_values_removed_before() {
    // Accepts "1 2" and "2 1": states 1 -1-> 2 -2-> 4 and 1 -2-> 3 -1-> 4.
    let dfa = DFA::from(
        4,
        2,
        vec![vec![2, 3], vec![0, 4], vec![4, 0], vec![0, 0]],
        1,
        vec![4],
    );
    let mut graph = LayeredGraph::from(dfa, 2);
    graph.kill_value(0, 2);
    assert_eq!(graph.living_values(1), vec![2]);
    // Removing x1 = 1 is explained by x0 != 2.
    assert_eq!(graph.explain_removal(1, 1), vec![(0, 2)]);
}

#[test]
fn nfa_graph_follows_every_guess() {
    let nfa = NFA::from(3, 2, vec![vec![vec![1, 2], vec![1]], vec![vec![3], vec![3]], vec![vec![], vec![]]], 1, vec![3]);
    let graph = LayeredGraph::from_nfa(nfa, 3);
    assert!(graph.is_consistent());
    assert_eq!(sorted(graph.living_values(0)), vec![1, 2]);
    assert_eq!(graph.living_values(1), vec![1]);
    assert_eq!(sorted(graph.living_values(2)), vec![1, 2]);
}

#[test]
fn drawing_marks_life_acceptance_and_labels() {
    let mut graph = LayeredGraph::from(ends_in_two_dfa(), 2);
    assert!(graph.arcs_in_alphabet());
    let (nodes, arcs) = graph.drawing();
    assert_eq!(nodes.len(), 4);
    assert!(nodes.iter().all(|m| m.alive));
    let accepting: Vec<(usize, usize)> =
        nodes.iter().filter(|m| m.accepting).map(|m| (m.node.layer, m.node.state)).collect();
    assert_eq!(accepting, vec![(2, 2)]);
    assert_eq!(arcs.len(), 4);
    assert!(arcs.iter().all(|m| m.alive));
    assert!(arcs.iter().all(|m| m.letter_index as i32 + 1 == m.arc.letter));
    let mut labelled: Vec<i32> = arcs.iter().filter(|m| m.labelled).map(|m| m.arc.letter).collect();
    labelled.sort();
    assert_eq!(labelled, vec![1, 2]);

    graph.kill_value(0, 1);
    let (nodes, arcs) = graph.drawing();
    assert_eq!(nodes.iter().filter(|m| !m.alive).map(|m| (m.node.layer, m.node.state)).collect::<Vec<_>>(), vec![(1, 1)]);
    let dead: Vec<(usize, i32)> = arcs.iter().filter(|m| !m.alive).map(|m| (m.arc.start_layer, m.arc.letter)).collect();
    assert_eq!(dead.len(), 2);
    assert!(dead.contains(&(0, 1)) && dead.contains(&(1, 2)));
    let labelled: Vec<i32> = arcs.iter().filter(|m| m.labelled).map(|m| m.arc.letter).collect();
    assert_eq!(labelled, vec![2]);
}

#[test]
fn explanation_names_the_value_that_blocks_acceptance() {
    // Accepts "1 2" and "2 1". With x1 = 1, the value 1 of x0 leads nowhere
    // because x1 lost 2.
    let dfa = DFA::from(
        4,
        2,
        vec![vec![2, 3], vec![0, 4], vec![4, 0], vec![0, 0]],
        1,
        vec![4],
    );
    let mut graph = LayeredGraph::from(dfa, 2);
    graph.kill_value(1, 2);
    assert_eq!(graph.living_values(0), vec![2]);
    assert_eq!(graph.explain_removal(0, 1), vec![(1, 2)]);
}

#[test]
fn graph_alphabet_comes_sorted() {
    // One state looping on both letters, listed in decreasing order.
    let dfa = DFA { states: 1, alphabet: vec![2, 1], transitions: vec![vec![1, 1]], starting_state: 1, accepting_states: vec![1] };
    let graph = LayeredGraph::from(dfa, 2);
    assert_eq!(graph.letter_index(1), 0);
    assert_eq!(graph.letter_index(2), 1);
}

#[test]
fn kills_leave_the_words_that_avoid_them() {
    let mut graph = LayeredGraph::from(ends_in_two_dfa(), 3);
    graph.kill_value(0, 1);
    graph.kill_value(1, 2);
    // Of the accepted words, only "2 1 2" takes neither killed pair.
    assert_eq!(graph.living_values(0), vec![2]);
    assert_eq!(graph.living_values(1), vec![1]);
    assert_eq!(graph.living_values(2), vec![2]);
    assert!(graph.is_consistent());
    graph.kill_value(1, 1);
    // No accepted word is left, and no variable keeps a value.
    assert!(!graph.is_consistent());
    for i in 0..3 {
        assert!(graph.living_values(i).is_empty());
    }
}
