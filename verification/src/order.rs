//! Ordering (state, cost) pairs by their states.

use std::cmp::Ordering;

use itertools::Itertools;
use vstd::prelude::*;

verus! {

/// Compares two (state, cost) pairs by their states alone.
pub fn by_state(a: &(u32, u32), b: &(u32, u32)) -> (o: Ordering)
    ensures
        (o == Ordering::Less) <==> a.0 < b.0,
        (o == Ordering::Equal) <==> a.0 == b.0,
        (o == Ordering::Greater) <==> a.0 > b.0,
{
    if a.0 < b.0 {
        Ordering::Less
    } else if a.0 == b.0 {
        Ordering::Equal
    } else {
        Ordering::Greater
    }
}

/// `Itertools::sorted_by` with `by_state`: it collects the pairs into a vector and
/// sorts it with `sort_by`, a stable sort, so the pairs come out as a permutation
/// of the input, in order of their states.
#[verifier::external_body]
pub(crate) fn sorted_by_state(pairs: Vec<(u32, u32)>) -> (sorted: Vec<(u32, u32)>)
    ensures
        sorted@.to_multiset() == pairs@.to_multiset(),
        forall|i: int, j: int| 0 <= i <= j < sorted@.len() ==> sorted@[i].0 <= sorted@[j].0,
{
    pairs.into_iter().sorted_by(|a, b| by_state(a, b)).collect()
}

} // verus!
