//! The tables of a counting DFA over a sequence of variables: for each position,
//! the states reached from the start (forward) or leading to the end (backward),
//! each with its least or greatest cost.

use std::collections::HashMap;

use vstd::prelude::*;
use vstd::std_specs::iter::IteratorSpec;

use crate::cdfa::{
    Bound, Cdfa, bwd_costs, co_reaches, fwd_costs, is_best, lemma_bwd_base, lemma_bwd_prepend, lemma_bwd_split,
    lemma_fwd_base, lemma_fwd_extend, lemma_fwd_split, lemma_run_bounds, no_worse, reaches, symbols_valid,
};
use crate::order::sorted_by_state;

verus! {

broadcast use vstd::std_specs::hash::group_hash_axioms;

/// The allowed symbols of each variable, as sequences.
pub open spec fn views(s: Seq<Vec<usize>>) -> Seq<Seq<usize>> {
    s.map_values(|v: Vec<usize>| v@)
}

// ------------------------------------------------------- keeping the best

/// `v` beats `w` for the bound.
pub open spec fn beats(bound: Bound, v: u32, w: u32) -> bool {
    match bound {
        Bound::Min => v < w,
        Bound::Max => v > w,
    }
}

/// `m` after offering `v` for key `k`: kept unless `k` already holds a value `v` does not beat.
pub open spec fn offer(bound: Bound, m: Map<u32, u32>, k: u32, v: u32) -> Map<u32, u32> {
    if m.contains_key(k) && !beats(bound, v, m[k]) { m } else { m.insert(k, v) }
}

/// The map built by offering the candidates in order.
pub open spec fn offer_all(bound: Bound, cands: Seq<(u32, u32)>) -> Map<u32, u32>
    decreases cands.len(),
{
    if cands.len() == 0 {
        Map::empty()
    } else {
        let e = cands.last();
        offer(bound, offer_all(bound, cands.drop_last()), e.0, e.1)
    }
}

/// The map holds, for each key offered, the best value offered for it.
pub proof fn lemma_offer_all(bound: Bound, cands: Seq<(u32, u32)>)
    ensures
        forall|k: u32| #[trigger] offer_all(bound, cands).contains_key(k) <==> exists|v: u32| cands.contains((k, v)),
        forall|k: u32| #[trigger] offer_all(bound, cands).contains_key(k) ==> cands.contains((k, offer_all(bound, cands)[k])),
        forall|k: u32, v: u32| #[trigger] cands.contains((k, v)) ==>
            no_worse(bound, offer_all(bound, cands)[k] as int, v as int),
    decreases cands.len(),
{
    if cands.len() > 0 {
        let rest = cands.drop_last();
        let e = cands.last();
        lemma_offer_all(bound, rest);
        assert(cands == rest.push(e));
        assert forall|k: u32, v: u32| #[trigger] cands.contains((k, v)) <==> rest.contains((k, v)) || (k, v) == e by {
            if cands.contains((k, v)) && (k, v) != e {
                let i = choose|i: int| 0 <= i < cands.len() && cands[i] == (k, v);
                assert(rest[i] == (k, v));
            }
            if rest.contains((k, v)) {
                let i = choose|i: int| 0 <= i < rest.len() && rest[i] == (k, v);
                assert(cands[i] == (k, v));
            }
            assert(cands[cands.len() - 1] == e);
        }
        let m = offer_all(bound, cands);
        let m0 = offer_all(bound, rest);
        assert(m == offer(bound, m0, e.0, e.1));
        assert forall|k: u32| #[trigger] m.contains_key(k) <==> exists|v: u32| cands.contains((k, v)) by {
            if m.contains_key(k) && k != e.0 {
                assert(m0.contains_key(k));
                let v = choose|v: u32| rest.contains((k, v));
                assert(cands.contains((k, v)));
            }
            if m.contains_key(k) && k == e.0 {
                assert(cands.contains((e.0, e.1)));
            }
        }
    }
}

/// Offers `v` for `k`, keeping the smaller value.
fn insert_min(hm: &mut HashMap<u32, u32>, k: u32, v: u32)
    ensures
        final(hm)@ == offer(Bound::Min, old(hm)@, k, v),
{
    match hm.get(&k) {
        Some(ref_v) => {
            if v < *ref_v {
                let _ = hm.insert(k, v);
            }
        },
        None => {
            let _ = hm.insert(k, v);
        },
    };
}

/// Offers `v` for `k`, keeping the larger value.
fn insert_max(hm: &mut HashMap<u32, u32>, k: u32, v: u32)
    ensures
        final(hm)@ == offer(Bound::Max, old(hm)@, k, v),
{
    match hm.get(&k) {
        Some(ref_v) => {
            if v > *ref_v {
                let _ = hm.insert(k, v);
            }
        },
        None => {
            let _ = hm.insert(k, v);
        },
    };
}

/// Offers `v` for `k`, keeping the better value for the bound.
pub(crate) fn insert_bound(hm: &mut HashMap<u32, u32>, k: u32, v: u32, bound: Bound)
    ensures
        final(hm)@ == offer(bound, old(hm)@, k, v),
{
    match bound {
        Bound::Min => insert_min(hm, k, v),
        Bound::Max => insert_max(hm, k, v),
    }
}

/// The entries of a map, each once, in the map's own order.
fn map_entries(m: &HashMap<u32, u32>) -> (out: Vec<(u32, u32)>)
    ensures
        out@.no_duplicates(),
        forall|k: u32, v: u32| #[trigger] out@.contains((k, v)) <==> m@.contains_key(k) && m@[k] == v,
{
    let mut out: Vec<(u32, u32)> = Vec::new();
    for e in it: m.iter()
        invariant
            out@ == it.seq().take(it.index() as int).map_values(|p: (&u32, &u32)| (*p.0, *p.1)),
            it.seq() == vstd::std_specs::hash::spec_hash_map_iter(m).remaining(),
            it.seq().no_duplicates(),
    {
        let (k, v) = e;
        out.push((*k, *v));
        assert(out@ == it.seq().take(it.index() + 1).map_values(|p: (&u32, &u32)| (*p.0, *p.1)));
    }
    proof {
        let v = vstd::std_specs::hash::spec_hash_map_iter(m).remaining();
        assert(out@ == v.map_values(|p: (&u32, &u32)| (*p.0, *p.1)));
        assert forall|k: u32, x: u32| #[trigger] out@.contains((k, x)) <==> m@.contains_key(k) && m@[k] == x by {
            if out@.contains((k, x)) {
                let i = choose|i: int| 0 <= i < out@.len() && out@[i] == (k, x);
                assert(m@.contains_key(*v[i].0) && m@[*v[i].0] == *v[i].1);
            }
            if m@.contains_key(k) && m@[k] == x {
                assert(v.contains((&k, &m@[k])));
                let i = choose|i: int| 0 <= i < v.len() && v[i] == (&k, &m@[k]);
                assert(out@[i] == (k, x));
            }
        }
        assert forall|i: int, j: int| 0 <= i < j < out@.len() implies out@[i] != out@[j] by {
            assert(v[i] != v[j]);
        }
    }
    out
}

/// A table row: (state, cost) pairs by strictly increasing state.
pub open spec fn strictly_sorted(row: Seq<(u32, u32)>) -> bool {
    forall|a: int, b: int| 0 <= a < b < row.len() ==> #[trigger] row[a].0 < #[trigger] row[b].0
}

/// The entries of a map, by increasing key.
pub(crate) fn sorted_entries(m: &HashMap<u32, u32>) -> (row: Vec<(u32, u32)>)
    ensures
        strictly_sorted(row@),
        forall|k: u32, v: u32| #[trigger] row@.contains((k, v)) <==> m@.contains_key(k) && m@[k] == v,
{
    let entries = map_entries(m);
    let row = sorted_by_state(entries);
    proof {
        broadcast use vstd::seq_lib::group_to_multiset_ensures;
        assert forall|e: (u32, u32)| #[trigger] row@.contains(e) <==> entries@.contains(e) by {
            assert(row@.contains(e) <==> row@.to_multiset().count(e) > 0);
            assert(entries@.contains(e) <==> entries@.to_multiset().count(e) > 0);
        }
        entries@.lemma_multiset_has_no_duplicates();
        row@.lemma_multiset_has_no_duplicates_conv();
        assert forall|a: int, b: int| 0 <= a < b < row@.len() implies #[trigger] row@[a].0 < #[trigger] row@[b].0 by {
            assert(row@[a].0 <= row@[b].0);
            if row@[a].0 == row@[b].0 {
                assert(row@.contains(row@[a]) && row@.contains(row@[b]));
                assert(entries@.contains(row@[a]) && entries@.contains(row@[b]));
                assert(row@[a] == row@[b]);
            }
        }
    }
    row
}


// ----------------------------------------------------------------- forward

/// The total cost of a full word fits the count, an `i32`.
pub open spec fn costs_fit(c: Cdfa, n: nat) -> bool {
    n * c.max_cost() <= i32::MAX
}

/// The candidate of the listed pair `pr` (a state and its cost) and symbol `l`:
/// the state entered and the cost after the step.
pub open spec fn fwd_cand(c: Cdfa, pr: (u32, u32), l: usize) -> (u32, u32) {
    (c.next(pr.0 as int, l as int) as u32, (pr.1 + c.cost(pr.0 as int, l as int)) as u32)
}

/// The forward candidates of the first `k` listed pairs: for each pair in turn
/// and each symbol in turn.
pub open spec fn fwd_cands(c: Cdfa, row: Seq<(u32, u32)>, syms: Seq<usize>, k: int) -> Seq<(u32, u32)>
    decreases k,
{
    if k <= 0 {
        Seq::empty()
    } else {
        fwd_cands(c, row, syms, k - 1) + syms.map_values(|l: usize| fwd_cand(c, row[k - 1], l))
    }
}

/// The forward candidates are those of a listed pair and a symbol.
proof fn lemma_fwd_cands(c: Cdfa, row: Seq<(u32, u32)>, syms: Seq<usize>, k: int, e: (u32, u32))
    requires
        0 <= k <= row.len(),
    ensures
        fwd_cands(c, row, syms, k).contains(e) <==> exists|a: int, j: int|
            0 <= a < k && 0 <= j < syms.len() && e == #[trigger] fwd_cand(c, row[a], syms[j]),
    decreases k,
{
    if k > 0 {
        lemma_fwd_cands(c, row, syms, k - 1, e);
        let prev = fwd_cands(c, row, syms, k - 1);
        let last = syms.map_values(|l: usize| fwd_cand(c, row[k - 1], l));
        let all = prev + last;
        if all.contains(e) {
            let i = choose|i: int| 0 <= i < all.len() && all[i] == e;
            if i < prev.len() {
                assert(prev[i] == e);
            } else {
                let j = i - prev.len();
                assert(last[j] == e);
                assert(e == fwd_cand(c, row[k - 1], syms[j]));
            }
        }
        if exists|a: int, j: int| 0 <= a < k && 0 <= j < syms.len() && e == #[trigger] fwd_cand(c, row[a], syms[j]) {
            let (a, j) = choose|a: int, j: int| 0 <= a < k && 0 <= j < syms.len() && e == #[trigger] fwd_cand(c, row[a], syms[j]);
            if a < k - 1 {
                let i = choose|i: int| 0 <= i < prev.len() && prev[i] == e;
                assert(all[i] == e);
            } else {
                assert(last[j] == e);
                assert(all[prev.len() + j] == e);
            }
        }
    }
}

/// Costs of reaching a state are bounded by the number of symbols read, and
/// the states reached are states of the automaton.
pub proof fn lemma_fwd_bounded(c: Cdfa, symbols: Seq<Seq<usize>>, avoid: bool, i: nat, q: int, x: int)
    requires
        c.wf(),
        symbols_valid(c, symbols),
        i <= symbols.len(),
        fwd_costs(c, symbols, avoid, i, q).contains(x),
    ensures
        0 <= x <= i * c.max_cost(),
        0 <= q < c.states(),
        reaches(c, symbols, avoid, i, q),
{
    let w = choose|w: Seq<usize>| #[trigger] crate::cdfa::fwd_word(c, symbols, avoid, i, q, w)
        && crate::cdfa::run_cost(c, c.initial(), w) == x;
    c.lemma_wf();
    assert forall|j: int| 0 <= j < w.len() implies #[trigger] w[j] < c.inputs() by {
        assert(symbols[0 + j].contains(w[j]));
        let k = choose|k: int| 0 <= k < symbols[j].len() && symbols[j][k] == w[j];
    }
    lemma_run_bounds(c, c.initial(), w);
}

/// A state reached after `i` variables is reached at some cost.
pub proof fn lemma_reaches_cost(c: Cdfa, symbols: Seq<Seq<usize>>, avoid: bool, i: nat, q: int)
    requires
        reaches(c, symbols, avoid, i, q),
    ensures
        exists|x: int| #[trigger] fwd_costs(c, symbols, avoid, i, q).contains(x),
{
    let w = choose|w: Seq<usize>| #[trigger] crate::cdfa::fwd_word(c, symbols, avoid, i, q, w);
    assert(fwd_costs(c, symbols, avoid, i, q).contains(crate::cdfa::run_cost(c, c.initial(), w)));
}

/// `row` lists, by increasing state, each state reached after `i` variables with
/// its best cost.
pub open spec fn fwd_row_ok(c: Cdfa, symbols: Seq<Seq<usize>>, avoid: bool, bound: Bound, i: nat, row: Seq<(u32, u32)>) -> bool {
    &&& strictly_sorted(row)
    &&& forall|k: int| 0 <= k < row.len() ==> reaches(c, symbols, avoid, i, (#[trigger] row[k]).0 as int)
        && is_best(bound, fwd_costs(c, symbols, avoid, i, row[k].0 as int), row[k].1 as int)
    &&& forall|q: int| #[trigger] reaches(c, symbols, avoid, i, q) ==> exists|k: int| 0 <= k < row.len() && row[k].0 == q
}

/// Offering the forward candidates of a correct row yields, for each state
/// reached one variable later (with `avoid`: other than state 0), its best cost.
pub proof fn lemma_fwd_layer(
    c: Cdfa,
    symbols: Seq<Seq<usize>>,
    avoid: bool,
    bound: Bound,
    i: nat,
    row: Seq<(u32, u32)>,
    m: Map<u32, u32>,
)
    requires
        c.wf(),
        symbols_valid(c, symbols),
        costs_fit(c, symbols.len()),
        i < symbols.len(),
        fwd_row_ok(c, symbols, avoid, bound, i, row),
        m == offer_all(bound, fwd_cands(c, row, symbols[i as int], row.len() as int)),
    ensures
        forall|q: u32| (#[trigger] m.contains_key(q) && (avoid ==> q != 0)) <==> reaches(c, symbols, avoid, i + 1, q as int),
        forall|q: u32| #[trigger] m.contains_key(q) && (avoid ==> q != 0) ==>
            is_best(bound, fwd_costs(c, symbols, avoid, i + 1, q as int), m[q] as int),
        forall|q: int| #[trigger] reaches(c, symbols, avoid, i + 1, q) ==> 0 <= q < c.states(),
{
    let syms = symbols[i as int];
    let cands = fwd_cands(c, row, syms, row.len() as int);
    lemma_offer_all(bound, cands);
    c.lemma_wf();
    // Each candidate is a step from a listed state by an allowed symbol.
    assert forall|a: int, j: int| #![trigger fwd_cand(c, row[a], syms[j])] 0 <= a < row.len() && 0 <= j < syms.len() implies {
        &&& fwd_cand(c, row[a], syms[j]).0 as int == c.next(row[a].0 as int, syms[j] as int)
        &&& fwd_cand(c, row[a], syms[j]).1 as int == row[a].1 + c.cost(row[a].0 as int, syms[j] as int)
        &&& (avoid ==> fwd_cand(c, row[a], syms[j]).0 != 0) ==>
            fwd_costs(c, symbols, avoid, i + 1, fwd_cand(c, row[a], syms[j]).0 as int).contains(fwd_cand(c, row[a], syms[j]).1 as int)
    } by {
        let pr = row[a];
        let l = syms[j];
        lemma_fwd_bounded(c, symbols, avoid, i, pr.0 as int, pr.1 as int);
        assert(l < c.inputs());
        assert(syms.contains(l));
        assert(pr.1 + c.cost(pr.0 as int, l as int) <= (i + 1) * c.max_cost()) by (nonlinear_arith)
            requires
                pr.1 <= i * c.max_cost(),
                c.cost(pr.0 as int, l as int) <= c.max_cost(),
        ;
        assert((i + 1) * c.max_cost() <= symbols.len() * c.max_cost()) by (nonlinear_arith)
            requires
                i + 1 <= symbols.len(),
        ;
        if avoid ==> c.next(pr.0 as int, l as int) != 0 {
            lemma_fwd_extend(c, symbols, avoid, i, pr.0 as int, l, pr.1 as int);
        }
    }
    // Every cost of reaching a state is matched by a candidate at least as good.
    assert forall|q: u32, x: int| #[trigger] fwd_costs(c, symbols, avoid, i + 1, q as int).contains(x) implies
        (avoid ==> q != 0) && exists|v: u32| cands.contains((q, v)) && no_worse(bound, v as int, x) by {
        lemma_fwd_split(c, symbols, avoid, i, q as int, x);
        let (p, l) = choose|p: int, l: usize| #[trigger] fwd_costs(c, symbols, avoid, i, p).contains(x - c.cost(p, l as int))
            && symbols[i as int].contains(l) && c.next(p, l as int) == q;
        lemma_fwd_bounded(c, symbols, avoid, i, p, x - c.cost(p, l as int));
        let a = choose|a: int| 0 <= a < row.len() && row[a].0 == p;
        let j = choose|j: int| 0 <= j < syms.len() && syms[j] == l;
        let e = fwd_cand(c, row[a], syms[j]);
        lemma_fwd_cands(c, row, syms, row.len() as int, e);
        assert(is_best(bound, fwd_costs(c, symbols, avoid, i, p), row[a].1 as int));
        assert(no_worse(bound, row[a].1 as int, x - c.cost(p, l as int)));
        assert(e.0 as int == c.next(row[a].0 as int, syms[j] as int));
        assert(e.1 as int == row[a].1 + c.cost(row[a].0 as int, syms[j] as int));
        assert(e == (q, e.1));
        assert(cands.contains((q, e.1)));
        assert(no_worse(bound, e.1 as int, x));
    }
    assert forall|q: u32| (#[trigger] m.contains_key(q) && (avoid ==> q != 0)) <==> reaches(c, symbols, avoid, i + 1, q as int) by {
        if m.contains_key(q) && (avoid ==> q != 0) {
            let v = choose|v: u32| cands.contains((q, v));
            lemma_fwd_cands(c, row, syms, row.len() as int, (q, v));
            let (a, j) = choose|a: int, j: int| 0 <= a < row.len() && 0 <= j < syms.len() && (q, v) == #[trigger] fwd_cand(c, row[a], syms[j]);
            assert(fwd_costs(c, symbols, avoid, i + 1, q as int).contains(v as int));
            let w = choose|w: Seq<usize>| #[trigger] crate::cdfa::fwd_word(c, symbols, avoid, i + 1, q as int, w)
                && crate::cdfa::run_cost(c, c.initial(), w) == v as int;
        }
        if reaches(c, symbols, avoid, i + 1, q as int) {
            lemma_reaches_cost(c, symbols, avoid, i + 1, q as int);
            let x = choose|x: int| #[trigger] fwd_costs(c, symbols, avoid, i + 1, q as int).contains(x);
        }
    }
    assert forall|q: u32| #[trigger] m.contains_key(q) && (avoid ==> q != 0) implies
        is_best(bound, fwd_costs(c, symbols, avoid, i + 1, q as int), m[q] as int) by {
        lemma_fwd_cands(c, row, syms, row.len() as int, (q, m[q]));
        let (a, j) = choose|a: int, j: int| 0 <= a < row.len() && 0 <= j < syms.len() && (q, m[q]) == #[trigger] fwd_cand(c, row[a], syms[j]);
        assert forall|x: int| #[trigger] fwd_costs(c, symbols, avoid, i + 1, q as int).contains(x) implies
            no_worse(bound, m[q] as int, x) by {
            let v = choose|v: u32| cands.contains((q, v)) && no_worse(bound, v as int, x);
        }
    }
    assert forall|q: int| #[trigger] reaches(c, symbols, avoid, i + 1, q) implies 0 <= q < c.states() by {
        lemma_reaches_cost(c, symbols, avoid, i + 1, q);
        let x = choose|x: int| #[trigger] fwd_costs(c, symbols, avoid, i + 1, q).contains(x);
        lemma_fwd_bounded(c, symbols, avoid, i + 1, q, x);
    }
}


/// Offers, for each listed pair in turn and each allowed symbol in turn, the
/// state entered and the cost after the step.
fn offer_forward(c_dfa: &Cdfa, pairs: &Vec<(u32, u32)>, symbols: &Vec<usize>, bound: Bound) -> (m: HashMap<u32, u32>)
    requires
        c_dfa.wf(),
        forall|t: int| 0 <= t < symbols@.len() ==> #[trigger] symbols@[t] < c_dfa.inputs(),
        forall|k: int| 0 <= k < pairs@.len() ==> (#[trigger] pairs@[k]).0 < c_dfa.states()
            && pairs@[k].1 + c_dfa.max_cost() <= u32::MAX,
    ensures
        m@ == offer_all(bound, fwd_cands(*c_dfa, pairs@, symbols@, pairs@.len() as int)),
{
    let mut new_pairs: HashMap<u32, u32> = HashMap::new();
    let mut r: usize = 0;
    while r < pairs.len()
        invariant
            c_dfa.wf(),
            forall|t: int| 0 <= t < symbols@.len() ==> #[trigger] symbols@[t] < c_dfa.inputs(),
            forall|k: int| 0 <= k < pairs@.len() ==> (#[trigger] pairs@[k]).0 < c_dfa.states()
                && pairs@[k].1 + c_dfa.max_cost() <= u32::MAX,
            r <= pairs@.len(),
            new_pairs@ == offer_all(bound, fwd_cands(*c_dfa, pairs@, symbols@, r as int)),
        decreases pairs@.len() - r,
    {
        let (q, c) = pairs[r];
        let ghost base = fwd_cands(*c_dfa, pairs@, symbols@, r as int);
        let ghost row = symbols@.map_values(|l: usize| fwd_cand(*c_dfa, pairs@[r as int], l));
        proof {
            assert(base + row.take(0) == base);
        }
        let mut t: usize = 0;
        while t < symbols.len()
            invariant
                c_dfa.wf(),
                forall|t: int| 0 <= t < symbols@.len() ==> #[trigger] symbols@[t] < c_dfa.inputs(),
                r < pairs@.len(),
                (q, c) == pairs@[r as int],
                q < c_dfa.states(),
                c + c_dfa.max_cost() <= u32::MAX,
                t <= symbols@.len(),
                row == symbols@.map_values(|l: usize| fwd_cand(*c_dfa, pairs@[r as int], l)),
                new_pairs@ == offer_all(bound, base + row.take(t as int)),
            decreases symbols@.len() - t,
        {
            let l = symbols[t];
            proof {
                c_dfa.lemma_wf();
                assert(c_dfa.cost(q as int, l as int) <= c_dfa.max_cost());
            }
            let new_q = c_dfa.next_state(q, l);
            let new_c = c + c_dfa.step_cost(q, l);
            let ghost before = base + row.take(t as int);
            insert_bound(&mut new_pairs, new_q, new_c, bound);
            proof {
                assert(row[t as int] == (new_q, new_c));
                assert(base + row.take(t + 1) == before.push((new_q, new_c)));
                assert((base + row.take(t + 1)).drop_last() == before);
            }
            t = t + 1;
        }
        proof {
            assert(row.take(symbols@.len() as int) == row);
        }
        r = r + 1;
    }
    new_pairs
}

/// `i`, but at most `n`.
pub open spec fn clamp(i: int, n: int) -> int {
    if i > n { n } else { i }
}

/// Fills the forward table up to position `i` (at most the sequence's length):
/// row `k` lists, by increasing state, each state reached after the first `k`
/// variables, with its least (or greatest) cost. Rows already there are kept.
/// Over an empty sequence, a position past 0 needs the first row already there.
pub fn compute_qcf(
    sequence_symbols: &Vec<Vec<usize>>,
    c_dfa: &Cdfa,
    qcf_table: &mut Vec<Vec<(u32, u32)>>,
    bound: Bound,
    i: usize,
)
    requires
        c_dfa.wf(),
        symbols_valid(*c_dfa, views(sequence_symbols@)),
        costs_fit(*c_dfa, sequence_symbols@.len() as nat),
        !(sequence_symbols@.len() == 0 && i > 0 && old(qcf_table)@.len() == 0),
        old(qcf_table)@.len() <= sequence_symbols@.len() + 1,
        forall|k: int| 0 <= k < old(qcf_table)@.len() ==>
            fwd_row_ok(*c_dfa, views(sequence_symbols@), false, bound, k as nat, #[trigger] old(qcf_table)@[k]@),
    ensures
        final(qcf_table)@.len() == (if old(qcf_table)@.len() > clamp(i as int, sequence_symbols@.len() as int) {
            old(qcf_table)@.len() as int
        } else {
            clamp(i as int, sequence_symbols@.len() as int) + 1
        }),
        final(qcf_table)@.len() <= sequence_symbols@.len() + 1,
        forall|k: int| 0 <= k < old(qcf_table)@.len() ==> #[trigger] final(qcf_table)@[k] == old(qcf_table)@[k],
        forall|k: int| 0 <= k < final(qcf_table)@.len() ==>
            fwd_row_ok(*c_dfa, views(sequence_symbols@), false, bound, k as nat, #[trigger] final(qcf_table)@[k]@),
    decreases i,
{
    let n = sequence_symbols.len();
    let index = if i > n { n } else { i };
    if index < qcf_table.len() {
        return;
    }
    if i == 0 {
        let mut first: Vec<(u32, u32)> = Vec::new();
        first.push((c_dfa.initial_state(), 0));
        proof {
            c_dfa.lemma_wf();
            let syms = views(sequence_symbols@);
            assert forall|q: int| #[trigger] reaches(*c_dfa, syms, false, 0, q) implies
                exists|k: int| 0 <= k < first@.len() && first@[k].0 == q by {
                lemma_fwd_base(*c_dfa, syms, false, q, 0);
                assert(first@[0].0 == q);
            }
            assert forall|x: int| #[trigger] fwd_costs(*c_dfa, syms, false, 0, c_dfa.initial()).contains(x) implies
                no_worse(bound, 0, x) by {
                lemma_fwd_base(*c_dfa, syms, false, c_dfa.initial(), x);
            }
            lemma_fwd_base(*c_dfa, syms, false, c_dfa.initial(), 0);
        }
        qcf_table.insert(0, first);
        return;
    }
    compute_qcf(sequence_symbols, c_dfa, qcf_table, bound, index - 1);
    let pairs = &qcf_table[index - 1];
    let symbols = &sequence_symbols[index - 1];
    proof {
        assert(fwd_row_ok(*c_dfa, views(sequence_symbols@), false, bound, (index - 1) as nat, pairs@));
        assert forall|t: int| 0 <= t < symbols@.len() implies #[trigger] symbols@[t] < c_dfa.inputs() by {
            assert(views(sequence_symbols@)[index - 1] == symbols@);
            assert(views(sequence_symbols@)[index - 1][t] < c_dfa.inputs());
        }
        assert forall|k: int| 0 <= k < pairs@.len() implies (#[trigger] pairs@[k]).0 < c_dfa.states()
            && pairs@[k].1 + c_dfa.max_cost() <= u32::MAX by {
            lemma_fwd_bounded(*c_dfa, views(sequence_symbols@), false, (index - 1) as nat, pairs@[k].0 as int, pairs@[k].1 as int);
            assert((index - 1) * c_dfa.max_cost() + c_dfa.max_cost() <= n * c_dfa.max_cost()) by (nonlinear_arith)
                requires
                    index <= n,
            ;
        }
    }
    let new_pairs = offer_forward(c_dfa, pairs, symbols, bound);
    let new_vec = sorted_entries(&new_pairs);
    proof {
        let syms = views(sequence_symbols@);
        let k = (index - 1) as nat;
        lemma_fwd_layer(*c_dfa, syms, false, bound, k, pairs@, new_pairs@);
        assert forall|j: int| 0 <= j < new_vec@.len() implies reaches(*c_dfa, syms, false, k + 1, (#[trigger] new_vec@[j]).0 as int)
            && is_best(bound, fwd_costs(*c_dfa, syms, false, k + 1, new_vec@[j].0 as int), new_vec@[j].1 as int) by {
            let (a, b) = new_vec@[j];
            assert(new_vec@[j] == (a, b));
            assert(new_vec@.contains((a, b)));
            assert(new_pairs@.contains_key(a) && new_pairs@[a] == b);
        }
        assert forall|q: int| #[trigger] reaches(*c_dfa, syms, false, k + 1, q) implies
            exists|j: int| 0 <= j < new_vec@.len() && new_vec@[j].0 == q by {
            let qq = q as u32;
            assert(0 <= q < c_dfa.states());
            c_dfa.lemma_wf();
            assert(new_pairs@.contains_key(qq));
            assert(new_vec@.contains((qq, new_pairs@[qq])));
        }
        assert(fwd_row_ok(*c_dfa, syms, false, bound, (k + 1) as nat, new_vec@));
    }
    qcf_table.insert(index, new_vec);
}


// ---------------------------------------------------------------- backward

/// The candidate of the listed pair `pr` (a state and its cost to the end),
/// symbol `l` and state `p`: the state `p` and its cost through the step.
pub open spec fn bwd_cand(c: Cdfa, pr: (u32, u32), l: usize, p: int) -> (u32, u32) {
    (p as u32, (pr.1 + c.cost(p, l as int)) as u32)
}

/// The candidates, among the states below `k`, that enter `pr.0` by symbol `l`.
pub open spec fn bwd_cands_at(c: Cdfa, pr: (u32, u32), l: usize, k: int) -> Seq<(u32, u32)>
    decreases k,
{
    if k <= 0 {
        Seq::empty()
    } else {
        let rest = bwd_cands_at(c, pr, l, k - 1);
        if c.next(k - 1, l as int) == pr.0 { rest.push(bwd_cand(c, pr, l, k - 1)) } else { rest }
    }
}

/// The candidates of the listed pair `pr` under the first `t` symbols.
pub open spec fn bwd_cands_pair(c: Cdfa, pr: (u32, u32), syms: Seq<usize>, t: int) -> Seq<(u32, u32)>
    decreases t,
{
    if t <= 0 {
        Seq::empty()
    } else {
        bwd_cands_pair(c, pr, syms, t - 1) + bwd_cands_at(c, pr, syms[t - 1], c.states() as int)
    }
}

/// The backward candidates of the first `k` listed pairs.
pub open spec fn bwd_cands(c: Cdfa, row: Seq<(u32, u32)>, syms: Seq<usize>, k: int) -> Seq<(u32, u32)>
    decreases k,
{
    if k <= 0 {
        Seq::empty()
    } else {
        bwd_cands(c, row, syms, k - 1) + bwd_cands_pair(c, row[k - 1], syms, syms.len() as int)
    }
}

proof fn lemma_bwd_cands_at(c: Cdfa, pr: (u32, u32), l: usize, k: int, e: (u32, u32))
    requires
        0 <= k,
    ensures
        bwd_cands_at(c, pr, l, k).contains(e) <==> exists|p: int|
            0 <= p < k && c.next(p, l as int) == pr.0 && e == #[trigger] bwd_cand(c, pr, l, p),
    decreases k,
{
    if k > 0 {
        lemma_bwd_cands_at(c, pr, l, k - 1, e);
        let rest = bwd_cands_at(c, pr, l, k - 1);
        if c.next(k - 1, l as int) == pr.0 {
            let x = bwd_cand(c, pr, l, k - 1);
            assert(rest.push(x)[rest.len() as int] == x);
            if rest.push(x).contains(e) && e != x {
                let i = choose|i: int| 0 <= i < rest.push(x).len() && rest.push(x)[i] == e;
                assert(rest[i] == e);
            }
            if rest.contains(e) {
                let i = choose|i: int| 0 <= i < rest.len() && rest[i] == e;
                assert(rest.push(x)[i] == e);
            }
        }
    }
}

proof fn lemma_bwd_cands_pair(c: Cdfa, pr: (u32, u32), syms: Seq<usize>, t: int, e: (u32, u32))
    requires
        0 <= t <= syms.len(),
    ensures
        bwd_cands_pair(c, pr, syms, t).contains(e) <==> exists|j: int, p: int|
            0 <= j < t && 0 <= p < c.states() && c.next(p, syms[j] as int) == pr.0
                && e == #[trigger] bwd_cand(c, pr, syms[j], p),
    decreases t,
{
    if t > 0 {
        lemma_bwd_cands_pair(c, pr, syms, t - 1, e);
        lemma_bwd_cands_at(c, pr, syms[t - 1], c.states() as int, e);
        let prev = bwd_cands_pair(c, pr, syms, t - 1);
        let last = bwd_cands_at(c, pr, syms[t - 1], c.states() as int);
        let all = prev + last;
        if all.contains(e) {
            let i = choose|i: int| 0 <= i < all.len() && all[i] == e;
            if i < prev.len() {
                assert(prev[i] == e);
            } else {
                assert(last[i - prev.len()] == e);
            }
        }
        if exists|j: int, p: int| 0 <= j < t && 0 <= p < c.states() && c.next(p, syms[j] as int) == pr.0
            && e == #[trigger] bwd_cand(c, pr, syms[j], p) {
            let (j, p) = choose|j: int, p: int| 0 <= j < t && 0 <= p < c.states() && c.next(p, syms[j] as int) == pr.0
                && e == #[trigger] bwd_cand(c, pr, syms[j], p);
            if j < t - 1 {
                let i = choose|i: int| 0 <= i < prev.len() && prev[i] == e;
                assert(all[i] == e);
            } else {
                let i = choose|i: int| 0 <= i < last.len() && last[i] == e;
                assert(all[prev.len() + i] == e);
            }
        }
    }
}

/// The backward candidates are those of a listed pair, a symbol and a state
/// entering the listed state by that symbol.
proof fn lemma_bwd_cands(c: Cdfa, row: Seq<(u32, u32)>, syms: Seq<usize>, k: int, e: (u32, u32))
    requires
        0 <= k <= row.len(),
    ensures
        bwd_cands(c, row, syms, k).contains(e) <==> exists|a: int, j: int, p: int|
            0 <= a < k && 0 <= j < syms.len() && 0 <= p < c.states() && c.next(p, syms[j] as int) == row[a].0
                && e == #[trigger] bwd_cand(c, row[a], syms[j], p),
    decreases k,
{
    if k > 0 {
        lemma_bwd_cands(c, row, syms, k - 1, e);
        lemma_bwd_cands_pair(c, row[k - 1], syms, syms.len() as int, e);
        let prev = bwd_cands(c, row, syms, k - 1);
        let last = bwd_cands_pair(c, row[k - 1], syms, syms.len() as int);
        let all = prev + last;
        if all.contains(e) {
            let i = choose|i: int| 0 <= i < all.len() && all[i] == e;
            if i < prev.len() {
                assert(prev[i] == e);
            } else {
                assert(last[i - prev.len()] == e);
                let (j, p) = choose|j: int, p: int| 0 <= j < syms.len() && 0 <= p < c.states()
                    && c.next(p, syms[j] as int) == row[k - 1].0 && e == #[trigger] bwd_cand(c, row[k - 1], syms[j], p);
            }
        }
        if exists|a: int, j: int, p: int| 0 <= a < k && 0 <= j < syms.len() && 0 <= p < c.states()
            && c.next(p, syms[j] as int) == row[a].0 && e == #[trigger] bwd_cand(c, row[a], syms[j], p) {
            let (a, j, p) = choose|a: int, j: int, p: int| 0 <= a < k && 0 <= j < syms.len() && 0 <= p < c.states()
                && c.next(p, syms[j] as int) == row[a].0 && e == #[trigger] bwd_cand(c, row[a], syms[j], p);
            if a < k - 1 {
                let i = choose|i: int| 0 <= i < prev.len() && prev[i] == e;
                assert(all[i] == e);
            } else {
                let i = choose|i: int| 0 <= i < last.len() && last[i] == e;
                assert(all[prev.len() + i] == e);
            }
        }
    }
}

/// Costs of reading the remaining variables are bounded by their number.
pub proof fn lemma_bwd_bounded(c: Cdfa, symbols: Seq<Seq<usize>>, avoid: bool, l: nat, p: int, x: int)
    requires
        c.wf(),
        symbols_valid(c, symbols),
        l <= symbols.len(),
        bwd_costs(c, symbols, avoid, l, p).contains(x),
    ensures
        0 <= x <= (symbols.len() - l) * c.max_cost(),
        0 <= p < c.states(),
        co_reaches(c, symbols, avoid, l, p),
{
    let u = choose|u: Seq<usize>| #[trigger] crate::cdfa::bwd_word(c, symbols, avoid, l, p, u)
        && crate::cdfa::run_cost(c, p, u) == x;
    c.lemma_wf();
    assert forall|j: int| 0 <= j < u.len() implies #[trigger] u[j] < c.inputs() by {
        let sj = symbols[l + j];
        assert(sj.contains(u[j]));
        let k = choose|k: int| 0 <= k < sj.len() && #[trigger] sj[k] == u[j];
    }
    lemma_run_bounds(c, p, u);
}

/// A state that co-reaches does so at some cost.
pub proof fn lemma_co_reaches_cost(c: Cdfa, symbols: Seq<Seq<usize>>, avoid: bool, l: nat, p: int)
    requires
        co_reaches(c, symbols, avoid, l, p),
    ensures
        exists|x: int| #[trigger] bwd_costs(c, symbols, avoid, l, p).contains(x),
{
    let u = choose|u: Seq<usize>| #[trigger] crate::cdfa::bwd_word(c, symbols, avoid, l, p, u);
    assert(bwd_costs(c, symbols, avoid, l, p).contains(crate::cdfa::run_cost(c, p, u)));
}

/// `row` lists, by increasing state, each state from which the variables from
/// position `l` on can be read, with its best cost.
pub open spec fn bwd_row_ok(c: Cdfa, symbols: Seq<Seq<usize>>, avoid: bool, bound: Bound, l: nat, row: Seq<(u32, u32)>) -> bool {
    &&& strictly_sorted(row)
    &&& forall|k: int| 0 <= k < row.len() ==> co_reaches(c, symbols, avoid, l, (#[trigger] row[k]).0 as int)
        && is_best(bound, bwd_costs(c, symbols, avoid, l, row[k].0 as int), row[k].1 as int)
    &&& forall|p: int| #[trigger] co_reaches(c, symbols, avoid, l, p) ==> exists|k: int| 0 <= k < row.len() && row[k].0 == p
}

/// Offering the backward candidates of a correct row yields, for each state
/// (with `avoid`: other than state 0) from which one more variable can be read
/// first, its best cost.
pub proof fn lemma_bwd_layer(
    c: Cdfa,
    symbols: Seq<Seq<usize>>,
    avoid: bool,
    bound: Bound,
    l: nat,
    row: Seq<(u32, u32)>,
    m: Map<u32, u32>,
)
    requires
        c.wf(),
        symbols_valid(c, symbols),
        costs_fit(c, symbols.len()),
        l < symbols.len(),
        bwd_row_ok(c, symbols, avoid, bound, l + 1, row),
        m == offer_all(bound, bwd_cands(c, row, symbols[l as int], row.len() as int)),
    ensures
        forall|p: u32| (#[trigger] m.contains_key(p) && (avoid ==> p != 0)) <==> co_reaches(c, symbols, avoid, l, p as int),
        forall|p: u32| #[trigger] m.contains_key(p) && (avoid ==> p != 0) ==>
            is_best(bound, bwd_costs(c, symbols, avoid, l, p as int), m[p] as int),
        forall|p: int| #[trigger] co_reaches(c, symbols, avoid, l, p) ==> 0 <= p < c.states(),
{
    let syms = symbols[l as int];
    let cands = bwd_cands(c, row, syms, row.len() as int);
    lemma_offer_all(bound, cands);
    c.lemma_wf();
    assert forall|a: int, j: int, p: int| #![trigger bwd_cand(c, row[a], syms[j], p)]
        0 <= a < row.len() && 0 <= j < syms.len() && 0 <= p < c.states() && c.next(p, syms[j] as int) == row[a].0 implies {
        &&& bwd_cand(c, row[a], syms[j], p).0 as int == p
        &&& bwd_cand(c, row[a], syms[j], p).1 as int == row[a].1 + c.cost(p, syms[j] as int)
        &&& (avoid ==> p != 0) ==> bwd_costs(c, symbols, avoid, l, p).contains(bwd_cand(c, row[a], syms[j], p).1 as int)
    } by {
        let pr = row[a];
        let s = syms[j];
        lemma_bwd_bounded(c, symbols, avoid, l + 1, pr.0 as int, pr.1 as int);
        assert(s < c.inputs());
        assert(syms.contains(s));
        let rem = (symbols.len() - (l + 1)) as nat;
        assert(pr.1 + c.cost(p, s as int) <= (rem + 1) * c.max_cost()) by (nonlinear_arith)
            requires
                pr.1 <= rem * c.max_cost(),
                c.cost(p, s as int) <= c.max_cost(),
        ;
        assert((rem + 1) * c.max_cost() <= symbols.len() * c.max_cost()) by (nonlinear_arith)
            requires
                rem + 1 <= symbols.len(),
        ;
        if avoid ==> p != 0 {
            lemma_bwd_prepend(c, symbols, avoid, l, p, s, pr.1 as int);
        }
    }
    assert forall|p: u32, x: int| #[trigger] bwd_costs(c, symbols, avoid, l, p as int).contains(x) implies
        (avoid ==> p != 0) && exists|v: u32| cands.contains((p, v)) && no_worse(bound, v as int, x) by {
        lemma_bwd_split(c, symbols, avoid, l, p as int, x);
        let s = choose|s: usize| #[trigger] symbols[l as int].contains(s)
            && bwd_costs(c, symbols, avoid, l + 1, c.next(p as int, s as int)).contains(x - c.cost(p as int, s as int));
        let q = c.next(p as int, s as int);
        lemma_bwd_bounded(c, symbols, avoid, l + 1, q, x - c.cost(p as int, s as int));
        let a = choose|a: int| 0 <= a < row.len() && row[a].0 == q;
        let j = choose|j: int| 0 <= j < syms.len() && syms[j] == s;
        let e = bwd_cand(c, row[a], syms[j], p as int);
        lemma_bwd_cands(c, row, syms, row.len() as int, e);
        assert(is_best(bound, bwd_costs(c, symbols, avoid, l + 1, q), row[a].1 as int));
        assert(no_worse(bound, row[a].1 as int, x - c.cost(p as int, s as int)));
        assert(e.0 as int == p);
        assert(e.1 as int == row[a].1 + c.cost(p as int, syms[j] as int));
        assert(e == (p, e.1));
        assert(cands.contains((p, e.1)));
        assert(no_worse(bound, e.1 as int, x));
    }
    assert forall|p: u32| (#[trigger] m.contains_key(p) && (avoid ==> p != 0)) <==> co_reaches(c, symbols, avoid, l, p as int) by {
        if m.contains_key(p) && (avoid ==> p != 0) {
            let v = choose|v: u32| cands.contains((p, v));
            lemma_bwd_cands(c, row, syms, row.len() as int, (p, v));
            let (a, j, pp) = choose|a: int, j: int, pp: int| 0 <= a < row.len() && 0 <= j < syms.len() && 0 <= pp < c.states()
                && c.next(pp, syms[j] as int) == row[a].0 && (p, v) == #[trigger] bwd_cand(c, row[a], syms[j], pp);
            assert(pp == p as int);
            assert(bwd_costs(c, symbols, avoid, l, p as int).contains(v as int));
            let u = choose|u: Seq<usize>| #[trigger] crate::cdfa::bwd_word(c, symbols, avoid, l, p as int, u)
                && crate::cdfa::run_cost(c, p as int, u) == v as int;
        }
        if co_reaches(c, symbols, avoid, l, p as int) {
            lemma_co_reaches_cost(c, symbols, avoid, l, p as int);
            let x = choose|x: int| #[trigger] bwd_costs(c, symbols, avoid, l, p as int).contains(x);
        }
    }
    assert forall|p: u32| #[trigger] m.contains_key(p) && (avoid ==> p != 0) implies
        is_best(bound, bwd_costs(c, symbols, avoid, l, p as int), m[p] as int) by {
        lemma_bwd_cands(c, row, syms, row.len() as int, (p, m[p]));
        let (a, j, pp) = choose|a: int, j: int, pp: int| 0 <= a < row.len() && 0 <= j < syms.len() && 0 <= pp < c.states()
            && c.next(pp, syms[j] as int) == row[a].0 && (p, m[p]) == #[trigger] bwd_cand(c, row[a], syms[j], pp);
        assert(pp == p as int);
        assert forall|x: int| #[trigger] bwd_costs(c, symbols, avoid, l, p as int).contains(x) implies
            no_worse(bound, m[p] as int, x) by {
            let v = choose|v: u32| cands.contains((p, v)) && no_worse(bound, v as int, x);
        }
    }
    assert forall|p: int| #[trigger] co_reaches(c, symbols, avoid, l, p) implies 0 <= p < c.states() by {
        lemma_co_reaches_cost(c, symbols, avoid, l, p);
        let x = choose|x: int| #[trigger] bwd_costs(c, symbols, avoid, l, p).contains(x);
        lemma_bwd_bounded(c, symbols, avoid, l, p, x);
    }
}


/// Offers, for each listed pair in turn, each allowed symbol in turn and each
/// state in turn that enters the pair's state by that symbol, the state and its
/// cost through the step.
fn offer_backward(c_dfa: &Cdfa, pairs: &Vec<(u32, u32)>, symbols: &Vec<usize>, bound: Bound) -> (m: HashMap<u32, u32>)
    requires
        c_dfa.wf(),
        forall|t: int| 0 <= t < symbols@.len() ==> #[trigger] symbols@[t] < c_dfa.inputs(),
        forall|k: int| 0 <= k < pairs@.len() ==> (#[trigger] pairs@[k]).1 + c_dfa.max_cost() <= u32::MAX,
    ensures
        m@ == offer_all(bound, bwd_cands(*c_dfa, pairs@, symbols@, pairs@.len() as int)),
{
    let mut new_pairs: HashMap<u32, u32> = HashMap::new();
    let num_states = c_dfa.num_states();
    let mut r: usize = 0;
    while r < pairs.len()
        invariant
            c_dfa.wf(),
            num_states == c_dfa.states(),
            forall|t: int| 0 <= t < symbols@.len() ==> #[trigger] symbols@[t] < c_dfa.inputs(),
            forall|k: int| 0 <= k < pairs@.len() ==> (#[trigger] pairs@[k]).1 + c_dfa.max_cost() <= u32::MAX,
            r <= pairs@.len(),
            new_pairs@ == offer_all(bound, bwd_cands(*c_dfa, pairs@, symbols@, r as int)),
        decreases pairs@.len() - r,
    {
        let (q, c) = pairs[r];
        let ghost pr = pairs@[r as int];
        let ghost base = bwd_cands(*c_dfa, pairs@, symbols@, r as int);
        proof {
            assert(base + bwd_cands_pair(*c_dfa, pr, symbols@, 0) == base);
        }
        let mut t: usize = 0;
        while t < symbols.len()
            invariant
                c_dfa.wf(),
                num_states == c_dfa.states(),
                forall|t: int| 0 <= t < symbols@.len() ==> #[trigger] symbols@[t] < c_dfa.inputs(),
                r < pairs@.len(),
                pr == pairs@[r as int],
                (q, c) == pr,
                c + c_dfa.max_cost() <= u32::MAX,
                t <= symbols@.len(),
                new_pairs@ == offer_all(bound, base + bwd_cands_pair(*c_dfa, pr, symbols@, t as int)),
            decreases symbols@.len() - t,
        {
            let l = symbols[t];
            let ghost mid = base + bwd_cands_pair(*c_dfa, pr, symbols@, t as int);
            proof {
                assert(mid + bwd_cands_at(*c_dfa, pr, l, 0) == mid);
            }
            let mut prev_q: u32 = 0;
            while prev_q < num_states
                invariant
                    c_dfa.wf(),
                    num_states == c_dfa.states(),
                    l < c_dfa.inputs(),
                    (q, c) == pr,
                    c + c_dfa.max_cost() <= u32::MAX,
                    prev_q <= num_states,
                    new_pairs@ == offer_all(bound, mid + bwd_cands_at(*c_dfa, pr, l, prev_q as int)),
                decreases num_states - prev_q,
            {
                let ghost before = mid + bwd_cands_at(*c_dfa, pr, l, prev_q as int);
                if c_dfa.next_state(prev_q, l) == q {
                    proof {
                        c_dfa.lemma_wf();
                        assert(c_dfa.cost(prev_q as int, l as int) <= c_dfa.max_cost());
                    }
                    let new_c = c + c_dfa.step_cost(prev_q, l);
                    insert_bound(&mut new_pairs, prev_q, new_c, bound);
                    proof {
                        assert(bwd_cand(*c_dfa, pr, l, prev_q as int) == (prev_q, new_c));
                        assert(mid + bwd_cands_at(*c_dfa, pr, l, prev_q + 1) == before.push((prev_q, new_c)));
                        assert(before.push((prev_q, new_c)).drop_last() == before);
                    }
                } else {
                    proof {
                        assert(mid + bwd_cands_at(*c_dfa, pr, l, prev_q + 1) == before);
                    }
                }
                prev_q = prev_q + 1;
            }
            proof {
                assert(bwd_cands_pair(*c_dfa, pr, symbols@, t + 1)
                    == bwd_cands_pair(*c_dfa, pr, symbols@, t as int) + bwd_cands_at(*c_dfa, pr, l, c_dfa.states() as int));
                assert(base + bwd_cands_pair(*c_dfa, pr, symbols@, t + 1) == mid + bwd_cands_at(*c_dfa, pr, l, num_states as int));
            }
            t = t + 1;
        }
        proof {
            assert(bwd_cands(*c_dfa, pairs@, symbols@, r + 1) == base + bwd_cands_pair(*c_dfa, pr, symbols@, symbols@.len() as int));
        }
        r = r + 1;
    }
    new_pairs
}

/// Fills the backward table, and on the way the forward table up to the
/// sequence's length: with `m` the position `i` (at most the sequence's length),
/// when the backward table holds more than `m` rows nothing changes; otherwise
/// rows for the positions from the end down to `m` are put before the rows
/// already there, row `k` listing, by increasing state, each state from which
/// the last `k` variables can be read into a state reached after all variables,
/// with its least (or greatest) cost.
pub fn compute_qcb_and_qcf(
    sequence_symbols: &Vec<Vec<usize>>,
    c_dfa: &Cdfa,
    qcb_table: &mut Vec<Vec<(u32, u32)>>,
    qcf_table: &mut Vec<Vec<(u32, u32)>>,
    bound: Bound,
    i: usize,
)
    requires
        c_dfa.wf(),
        symbols_valid(*c_dfa, views(sequence_symbols@)),
        costs_fit(*c_dfa, sequence_symbols@.len() as nat),
        old(qcf_table)@.len() <= sequence_symbols@.len() + 1,
        forall|k: int| 0 <= k < old(qcf_table)@.len() ==>
            fwd_row_ok(*c_dfa, views(sequence_symbols@), false, bound, k as nat, #[trigger] old(qcf_table)@[k]@),
    ensures
        clamp(i as int, sequence_symbols@.len() as int) < old(qcb_table)@.len() ==>
            final(qcb_table)@ == old(qcb_table)@ && final(qcf_table)@ == old(qcf_table)@,
        clamp(i as int, sequence_symbols@.len() as int) >= old(qcb_table)@.len() ==> {
            let fresh = sequence_symbols@.len() - clamp(i as int, sequence_symbols@.len() as int) + 1;
            &&& final(qcf_table)@.len() == sequence_symbols@.len() + 1
            &&& forall|k: int| 0 <= k < final(qcf_table)@.len() ==>
                fwd_row_ok(*c_dfa, views(sequence_symbols@), false, bound, k as nat, #[trigger] final(qcf_table)@[k]@)
            &&& final(qcb_table)@.len() == fresh + old(qcb_table)@.len()
            &&& forall|k: int| 0 <= k < fresh ==>
                bwd_row_ok(*c_dfa, views(sequence_symbols@), false, bound, (sequence_symbols@.len() - k) as nat, #[trigger] final(qcb_table)@[k]@)
            &&& forall|k: int| fresh <= k < final(qcb_table)@.len() ==> #[trigger] final(qcb_table)@[k] == old(qcb_table)@[k - fresh]
        },
    decreases sequence_symbols@.len() - i,
{
    let ghost old_qcb = qcb_table@;
    let n = sequence_symbols.len();
    let index = if i > n { n } else { i };
    if index < qcb_table.len() {
        return;
    }
    if index == n {
        compute_qcf(sequence_symbols, c_dfa, qcf_table, bound, n);
        let last = &qcf_table[n];
        let mut first: Vec<(u32, u32)> = Vec::new();
        let mut k: usize = 0;
        while k < last.len()
            invariant
                k <= last@.len(),
                first@.len() == k,
                forall|j: int| 0 <= j < k ==> #[trigger] first@[j] == (last@[j].0, 0u32),
            decreases last@.len() - k,
        {
            let (q, _) = last[k];
            first.push((q, 0));
            k = k + 1;
        }
        proof {
            let syms = views(sequence_symbols@);
            assert(fwd_row_ok(*c_dfa, syms, false, bound, n as nat, last@));
            assert forall|j: int| 0 <= j < first@.len() implies co_reaches(*c_dfa, syms, false, n as nat, (#[trigger] first@[j]).0 as int)
                && is_best(bound, bwd_costs(*c_dfa, syms, false, n as nat, first@[j].0 as int), first@[j].1 as int) by {
                let q = last@[j].0 as int;
                assert(reaches(*c_dfa, syms, false, n as nat, q));
                lemma_reaches_cost(*c_dfa, syms, false, n as nat, q);
                let x = choose|x: int| #[trigger] fwd_costs(*c_dfa, syms, false, n as nat, q).contains(x);
                lemma_fwd_bounded(*c_dfa, syms, false, n as nat, q, x);
                lemma_bwd_base(*c_dfa, syms, false, q, 0);
                assert forall|y: int| #[trigger] bwd_costs(*c_dfa, syms, false, n as nat, q).contains(y) implies
                    no_worse(bound, 0, y) by {
                    lemma_bwd_base(*c_dfa, syms, false, q, y);
                }
            }
            assert forall|p: int| #[trigger] co_reaches(*c_dfa, syms, false, n as nat, p) implies
                exists|j: int| 0 <= j < first@.len() && first@[j].0 == p by {
                lemma_bwd_base(*c_dfa, syms, false, p, 0);
                let j = choose|j: int| 0 <= j < last@.len() && last@[j].0 == p;
                assert(first@[j].0 == p);
            }
            assert(strictly_sorted(first@)) by {
                assert forall|a: int, b: int| 0 <= a < b < first@.len() implies #[trigger] first@[a].0 < #[trigger] first@[b].0 by {
                    assert(last@[a].0 < last@[b].0);
                }
            }
        }
        qcb_table.insert(0, first);
        proof {
            assert forall|k: int| 1 <= k < qcb_table@.len() implies #[trigger] qcb_table@[k] == old_qcb[k - 1] by {}
        }
        return;
    }
    compute_qcb_and_qcf(sequence_symbols, c_dfa, qcb_table, qcf_table, bound, index + 1);
    let ghost mid = qcb_table@;
    let pairs = &qcb_table[n - index - 1];
    let symbols = &sequence_symbols[index];
    proof {
        let syms = views(sequence_symbols@);
        assert(bwd_row_ok(*c_dfa, syms, false, bound, (index + 1) as nat, pairs@));
        assert forall|t: int| 0 <= t < symbols@.len() implies #[trigger] symbols@[t] < c_dfa.inputs() by {
            assert(syms[index as int] == symbols@);
            assert(syms[index as int][t] < c_dfa.inputs());
        }
        assert forall|k: int| 0 <= k < pairs@.len() implies (#[trigger] pairs@[k]).1 + c_dfa.max_cost() <= u32::MAX by {
            lemma_bwd_bounded(*c_dfa, syms, false, (index + 1) as nat, pairs@[k].0 as int, pairs@[k].1 as int);
            assert((n - (index + 1)) * c_dfa.max_cost() + c_dfa.max_cost() <= n * c_dfa.max_cost()) by (nonlinear_arith)
                requires
                    index < n,
            ;
        }
    }
    let new_pairs = offer_backward(c_dfa, pairs, symbols, bound);
    let new_vec = sorted_entries(&new_pairs);
    proof {
        let syms = views(sequence_symbols@);
        let l = index as nat;
        lemma_bwd_layer(*c_dfa, syms, false, bound, l, pairs@, new_pairs@);
        assert forall|j: int| 0 <= j < new_vec@.len() implies co_reaches(*c_dfa, syms, false, l, (#[trigger] new_vec@[j]).0 as int)
            && is_best(bound, bwd_costs(*c_dfa, syms, false, l, new_vec@[j].0 as int), new_vec@[j].1 as int) by {
            let (a, b) = new_vec@[j];
            assert(new_vec@[j] == (a, b));
            assert(new_vec@.contains((a, b)));
            assert(new_pairs@.contains_key(a) && new_pairs@[a] == b);
        }
        assert forall|p: int| #[trigger] co_reaches(*c_dfa, syms, false, l, p) implies
            exists|j: int| 0 <= j < new_vec@.len() && new_vec@[j].0 == p by {
            let pp = p as u32;
            assert(0 <= p < c_dfa.states());
            c_dfa.lemma_wf();
            assert(new_pairs@.contains_key(pp));
            assert(new_vec@.contains((pp, new_pairs@[pp])));
        }
    }
    qcb_table.insert(n - index, new_vec);
    proof {
        let f = (n - index + 1) as int;
        assert(qcb_table@[n - index] == new_vec);
        assert forall|k: int| 0 <= k < n - index implies #[trigger] qcb_table@[k] == mid[k] by {}
        assert forall|k: int| f <= k < qcb_table@.len() implies #[trigger] qcb_table@[k] == old_qcb[k - f] by {
            assert(qcb_table@[k] == mid[k - 1]);
        }
    }
}


/// A combined row: (state, least cost, greatest cost) by strictly increasing state.
pub open spec fn strictly_sorted3(row: Seq<(u32, u32, u32)>) -> bool {
    forall|a: int, b: int| 0 <= a < b < row.len() ==> #[trigger] row[a].0 < #[trigger] row[b].0
}

/// Merges two rows sorted by state into the states listed in both, each with
/// its value from the first row and its value from the second.
pub fn combine_table(min_table: &Vec<(u32, u32)>, max_table: &Vec<(u32, u32)>) -> (table: Vec<(u32, u32, u32)>)
    requires
        strictly_sorted(min_table@),
        strictly_sorted(max_table@),
    ensures
        strictly_sorted3(table@),
        forall|q: u32, a: u32, b: u32| #[trigger] table@.contains((q, a, b)) <==>
            min_table@.contains((q, a)) && max_table@.contains((q, b)),
{
    let mut i: usize = 0;
    let mut j: usize = 0;
    let mut table: Vec<(u32, u32, u32)> = Vec::new();
    while i < min_table.len() && j < max_table.len()
        invariant
            strictly_sorted(min_table@),
            strictly_sorted(max_table@),
            i <= min_table@.len(),
            j <= max_table@.len(),
            strictly_sorted3(table@),
            forall|a: int| 0 <= a < i && j < max_table@.len() ==> #[trigger] min_table@[a].0 < max_table@[j as int].0,
            forall|b: int| 0 <= b < j && i < min_table@.len() ==> #[trigger] max_table@[b].0 < min_table@[i as int].0,
            forall|k: int| 0 <= k < table@.len() && i < min_table@.len() ==> #[trigger] table@[k].0 < min_table@[i as int].0,
            forall|k: int| 0 <= k < table@.len() && j < max_table@.len() ==> #[trigger] table@[k].0 < max_table@[j as int].0,
            forall|e: (u32, u32, u32)| #[trigger] table@.contains(e) ==>
                min_table@.contains((e.0, e.1)) && max_table@.contains((e.0, e.2)),
            forall|a: int, b: int| 0 <= a < i && 0 <= b < j && #[trigger] min_table@[a].0 == #[trigger] max_table@[b].0 ==>
                table@.contains((min_table@[a].0, min_table@[a].1, max_table@[b].1)),
        decreases min_table@.len() - i + max_table@.len() - j,
    {
        let (q_min, min_c) = min_table[i];
        let (q_max, max_c) = max_table[j];
        if q_min < q_max {
            i = i + 1;
        } else if q_min > q_max {
            j = j + 1;
        } else {
            let ghost before = table@;
            table.push((q_min, min_c, max_c));
            proof {
                assert forall|e: (u32, u32, u32)| #[trigger] table@.contains(e) implies
                    min_table@.contains((e.0, e.1)) && max_table@.contains((e.0, e.2)) by {
                    if e != (q_min, min_c, max_c) {
                        let k = choose|k: int| 0 <= k < table@.len() && table@[k] == e;
                        assert(before[k] == e);
                        assert(before.contains(e));
                    } else {
                        assert(min_table@[i as int] == (e.0, e.1));
                        assert(max_table@[j as int] == (e.0, e.2));
                    }
                }
                assert forall|a: int, b: int| 0 <= a < i + 1 && 0 <= b < j + 1 && #[trigger] min_table@[a].0 == #[trigger] max_table@[b].0 implies
                    table@.contains((min_table@[a].0, min_table@[a].1, max_table@[b].1)) by {
                    if a < i && b < j {
                        let k = choose|k: int| 0 <= k < before.len() && before[k] == (min_table@[a].0, min_table@[a].1, max_table@[b].1);
                        assert(table@[k] == before[k]);
                    } else if a == i && b == j {
                        assert(table@[before.len() as int] == (q_min, min_c, max_c));
                    } else if a == i {
                        assert(max_table@[b].0 < min_table@[i as int].0);
                    } else {
                        assert(min_table@[a].0 < max_table@[j as int].0);
                    }
                }
            }
            i = i + 1;
            j = j + 1;
        }
    }
    proof {
        assert forall|q: u32, a: u32, b: u32| min_table@.contains((q, a)) && max_table@.contains((q, b)) implies
            #[trigger] table@.contains((q, a, b)) by {
            let x = choose|x: int| 0 <= x < min_table@.len() && min_table@[x] == (q, a);
            let y = choose|y: int| 0 <= y < max_table@.len() && max_table@[y] == (q, b);
            assert(min_table@[x].0 == max_table@[y].0);
            if x >= i {
                assert(j == max_table@.len());
                assert(max_table@[y].0 < min_table@[i as int].0);
                if x > i {
                    assert(min_table@[i as int].0 < min_table@[x].0);
                }
                assert(false);
            } else if y >= j {
                assert(i == min_table@.len());
                assert(false);
            } else {
                assert(table@.contains((min_table@[x].0, min_table@[x].1, max_table@[y].1)));
            }
        }
    }
    table
}

} // verus!
