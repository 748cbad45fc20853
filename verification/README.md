# regular_propagators

Propagators and inference checkers for the `regular` family of global
constraints, verified with Verus: a sequence of integer variables must spell a
word accepted by an automaton.

- `regular`: a DFA. The propagator unrolls the automaton into a layered graph
  over the sequence, kills the arcs of the values no longer in the domains, and
  prunes every value that lies on no accepted word fitting the domains, each
  with an explanation.
- `regular_nfa`: the same over an NFA.
- `regular_cdfa`: a counting DFA whose transitions add a cost; a count
  variable holds the total. Values are pruned by the least and greatest totals
  of the words through them, and the count's bounds are tightened.

Automata are described in the 1-based convention: states `1..=num_states`,
letters `1..=num_inputs`, `transition_matrix[q - 1][a - 1]` the state entered
from `q` by `a` (0 or below: none).

## Layout

- `src/automaton.rs`: DFAs and NFAs, and runs of an automaton.
- `src/layered_graph.rs`: the layered graph, its upkeep as values are killed,
  the explanations of removals, and what it is drawn from.
- `src/regular.rs`: the DFA and NFA propagators, with the laws of their pruning.
- `src/checker.rs`: their inference checkers.
- `src/cdfa.rs`, `src/cdfa_tables.rs`, `src/regular_cdfa.rs`: the counting DFA,
  its forward and backward cost tables, and its propagator.
- `src/cdfa_checker_tables.rs`, `src/cdfa_checker.rs`: its inference checker.
- `src/order.rs`: ordering table rows by state.
- `app/`: drawing a layered graph as TikZ code.

The propagators take each variable's domain as a list of values and return
what they deduce; applying it to a solver's state is the caller's part.
