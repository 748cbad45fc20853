//! Propagation for the `regular` family of global constraints: a sequence of
//! variables must spell a word accepted by an automaton (a DFA, an NFA, or a
//! counting DFA whose transitions add to a cost variable).

use vstd::prelude::*;

pub mod automaton;
pub mod layered_graph;
pub mod regular;
pub mod checker;
pub mod cdfa;
pub mod order;
pub mod cdfa_tables;
pub mod regular_cdfa;
pub mod cdfa_checker_tables;
pub mod cdfa_checker;

verus! {

/// A symbol of the automaton's alphabet; also a value of a sequence variable.
pub type Letter = i32;

} // verus!
