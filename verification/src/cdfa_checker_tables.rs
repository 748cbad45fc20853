//! The tables the checker of the counting DFA builds: each row lists, by
//! increasing state, the states with both their least and greatest cost.

use std::collections::HashMap;

use vstd::prelude::*;

use crate::regular_cdfa::{lemma_bwd_row_pairs, lemma_fwd_row_pairs};
use crate::cdfa::{Bound, Cdfa, co_reaches, fwd_costs, is_best, lemma_bwd_base, lemma_fwd_base, no_worse, reaches, symbols_valid};
use crate::cdfa_tables::{
    bwd_cands, bwd_cand, bwd_cands_at, bwd_cands_pair, bwd_row_ok, costs_fit, fwd_cand, fwd_cands, fwd_row_ok, lemma_bwd_bounded,
    clamp, lemma_bwd_layer, lemma_co_reaches_cost, lemma_fwd_bounded, lemma_fwd_layer, lemma_reaches_cost, offer_all, strictly_sorted,
    strictly_sorted3, views,
};

verus! {

broadcast use vstd::std_specs::hash::group_hash_axioms;

/// The (state, least cost) pairs of a checker row.
pub open spec fn proj_min(row: Seq<(u32, (u32, u32))>) -> Seq<(u32, u32)> {
    row.map_values(|e: (u32, (u32, u32))| (e.0, e.1.0))
}

/// The (state, greatest cost) pairs of a checker row.
pub open spec fn proj_max(row: Seq<(u32, (u32, u32))>) -> Seq<(u32, u32)> {
    row.map_values(|e: (u32, (u32, u32))| (e.0, e.1.1))
}

/// A checker row at position `i`: the states reached,
/// by increasing state, each with its least and greatest cost.
pub open spec fn check_fwd_row_ok(c: Cdfa, s: Seq<Seq<usize>>, i: nat, row: Seq<(u32, (u32, u32))>) -> bool {
    &&& fwd_row_ok(c, s, false, Bound::Min, i, proj_min(row))
    &&& fwd_row_ok(c, s, false, Bound::Max, i, proj_max(row))
}

/// A checker backward row at position `l`.
pub open spec fn check_bwd_row_ok(c: Cdfa, s: Seq<Seq<usize>>, l: nat, row: Seq<(u32, (u32, u32))>) -> bool {
    &&& bwd_row_ok(c, s, false, Bound::Min, l, proj_min(row))
    &&& bwd_row_ok(c, s, false, Bound::Max, l, proj_max(row))
}

/// Offers to two maps, for each listed entry in turn and each allowed symbol in
/// turn, the state entered with its least and with its greatest cost.
fn offer_forward_both(c_dfa: &Cdfa, pairs: &Vec<(u32, (u32, u32))>, symbols: &Vec<usize>) -> (maps: (HashMap<u32, u32>, HashMap<u32, u32>))
    requires
        c_dfa.wf(),
        forall|t: int| 0 <= t < symbols@.len() ==> #[trigger] symbols@[t] < c_dfa.inputs(),
        forall|k: int| 0 <= k < pairs@.len() ==> (#[trigger] pairs@[k]).0 < c_dfa.states()
            && pairs@[k].1.0 + c_dfa.max_cost() <= u32::MAX && pairs@[k].1.1 + c_dfa.max_cost() <= u32::MAX,
    ensures
        maps.0@ == offer_all(Bound::Min, fwd_cands(*c_dfa, proj_min(pairs@), symbols@, pairs@.len() as int)),
        maps.1@ == offer_all(Bound::Max, fwd_cands(*c_dfa, proj_max(pairs@), symbols@, pairs@.len() as int)),
{
    let mut new_min_pairs: HashMap<u32, u32> = HashMap::new();
    let mut new_max_pairs: HashMap<u32, u32> = HashMap::new();
    let ghost pmin = proj_min(pairs@);
    let ghost pmax = proj_max(pairs@);
    let mut r: usize = 0;
    while r < pairs.len()
        invariant
            c_dfa.wf(),
            forall|t: int| 0 <= t < symbols@.len() ==> #[trigger] symbols@[t] < c_dfa.inputs(),
            forall|k: int| 0 <= k < pairs@.len() ==> (#[trigger] pairs@[k]).0 < c_dfa.states()
                && pairs@[k].1.0 + c_dfa.max_cost() <= u32::MAX && pairs@[k].1.1 + c_dfa.max_cost() <= u32::MAX,
            pmin == proj_min(pairs@),
            pmax == proj_max(pairs@),
            r <= pairs@.len(),
            new_min_pairs@ == offer_all(Bound::Min, fwd_cands(*c_dfa, pmin, symbols@, r as int)),
            new_max_pairs@ == offer_all(Bound::Max, fwd_cands(*c_dfa, pmax, symbols@, r as int)),
        decreases pairs@.len() - r,
    {
        let (q, (min_count, max_count)) = pairs[r];
        let ghost base_min = fwd_cands(*c_dfa, pmin, symbols@, r as int);
        let ghost base_max = fwd_cands(*c_dfa, pmax, symbols@, r as int);
        let ghost row_min = symbols@.map_values(|l: usize| fwd_cand(*c_dfa, pmin[r as int], l));
        let ghost row_max = symbols@.map_values(|l: usize| fwd_cand(*c_dfa, pmax[r as int], l));
        proof {
            assert(base_min + row_min.take(0) == base_min);
            assert(base_max + row_max.take(0) == base_max);
            assert(pmin[r as int] == (q, min_count));
            assert(pmax[r as int] == (q, max_count));
        }
        let mut t: usize = 0;
        while t < symbols.len()
            invariant
                c_dfa.wf(),
                forall|t: int| 0 <= t < symbols@.len() ==> #[trigger] symbols@[t] < c_dfa.inputs(),
                q < c_dfa.states(),
                min_count + c_dfa.max_cost() <= u32::MAX,
                max_count + c_dfa.max_cost() <= u32::MAX,
                pmin[r as int] == (q, min_count),
                pmax[r as int] == (q, max_count),
                t <= symbols@.len(),
                row_min == symbols@.map_values(|l: usize| fwd_cand(*c_dfa, pmin[r as int], l)),
                row_max == symbols@.map_values(|l: usize| fwd_cand(*c_dfa, pmax[r as int], l)),
                new_min_pairs@ == offer_all(Bound::Min, base_min + row_min.take(t as int)),
                new_max_pairs@ == offer_all(Bound::Max, base_max + row_max.take(t as int)),
            decreases symbols@.len() - t,
        {
            let l = symbols[t];
            proof {
                c_dfa.lemma_wf();
                assert(c_dfa.cost(q as int, l as int) <= c_dfa.max_cost());
            }
            let new_q = c_dfa.next_state(q, l);
            let step = c_dfa.step_cost(q, l);
            let new_min_count = min_count + step;
            let new_max_count = max_count + step;
            let ghost before_min = base_min + row_min.take(t as int);
            let ghost before_max = base_max + row_max.take(t as int);
            crate::cdfa_tables::insert_bound(&mut new_min_pairs, new_q, new_min_count, Bound::Min);
            crate::cdfa_tables::insert_bound(&mut new_max_pairs, new_q, new_max_count, Bound::Max);
            proof {
                assert(row_min[t as int] == (new_q, new_min_count));
                assert(row_max[t as int] == (new_q, new_max_count));
                assert(base_min + row_min.take(t + 1) == before_min.push((new_q, new_min_count)));
                assert(base_max + row_max.take(t + 1) == before_max.push((new_q, new_max_count)));
                assert((base_min + row_min.take(t + 1)).drop_last() == before_min);
                assert((base_max + row_max.take(t + 1)).drop_last() == before_max);
            }
            t = t + 1;
        }
        proof {
            assert(row_min.take(symbols@.len() as int) == row_min);
            assert(row_max.take(symbols@.len() as int) == row_max);
        }
        r = r + 1;
    }
    (new_min_pairs, new_max_pairs)
}

/// The states of the automaton that both maps hold, in order, with both values.
fn collect_both(c_dfa: &Cdfa, min_map: &HashMap<u32, u32>, max_map: &HashMap<u32, u32>) -> (row: Vec<(u32, (u32, u32))>)
    ensures
        strictly_sorted(proj_min(row@)),
        forall|k: int| 0 <= k < row@.len() ==> (#[trigger] row@[k]).0 < c_dfa.states()
            && min_map@.contains_key(row@[k].0) && max_map@.contains_key(row@[k].0)
            && row@[k].1.0 == min_map@[row@[k].0] && row@[k].1.1 == max_map@[row@[k].0],
        forall|q: u32| q < c_dfa.states() && #[trigger] min_map@.contains_key(q) && max_map@.contains_key(q) ==>
            exists|k: int| 0 <= k < row@.len() && row@[k].0 == q,
{
    let num_states = c_dfa.num_states();
    let mut new_vec: Vec<(u32, (u32, u32))> = Vec::new();
    let mut q: u32 = 0;
    while q < num_states
        invariant
            num_states == c_dfa.states(),
            q <= num_states,
            forall|k: int| 0 <= k < new_vec@.len() ==> (#[trigger] new_vec@[k]).0 < q
                && min_map@.contains_key(new_vec@[k].0) && max_map@.contains_key(new_vec@[k].0)
                && new_vec@[k].1.0 == min_map@[new_vec@[k].0] && new_vec@[k].1.1 == max_map@[new_vec@[k].0],
            forall|a: int, b: int| 0 <= a < b < new_vec@.len() ==> (#[trigger] new_vec@[a]).0 < (#[trigger] new_vec@[b]).0,
            forall|x: u32| x < q && #[trigger] min_map@.contains_key(x) && max_map@.contains_key(x) ==>
                exists|k: int| 0 <= k < new_vec@.len() && new_vec@[k].0 == x,
        decreases num_states - q,
    {
        if min_map.contains_key(&q) && max_map.contains_key(&q) {
            let a = *min_map.get(&q).unwrap();
            let b = *max_map.get(&q).unwrap();
            let ghost before = new_vec@;
            new_vec.push((q, (a, b)));
            proof {
                assert(new_vec@[before.len() as int].0 == q);
                assert forall|x: u32| x < q + 1 && #[trigger] min_map@.contains_key(x) && max_map@.contains_key(x) implies
                    exists|k: int| 0 <= k < new_vec@.len() && new_vec@[k].0 == x by {
                    if x < q {
                        let k = choose|k: int| 0 <= k < before.len() && before[k].0 == x;
                        assert(new_vec@[k] == before[k]);
                    }
                }
            }
        }
        q = q + 1;
    }
    proof {
        assert forall|a: int, b: int| 0 <= a < b < proj_min(new_vec@).len() implies
            #[trigger] proj_min(new_vec@)[a].0 < #[trigger] proj_min(new_vec@)[b].0 by {
            assert(new_vec@[a].0 < new_vec@[b].0);
        }
    }
    new_vec
}

/// A row built from the offered maps of a correct forward row is correct.
proof fn lemma_check_fwd_row(
    c: Cdfa,
    s: Seq<Seq<usize>>,
    i: nat,
    pairs: Seq<(u32, (u32, u32))>,
    min_map: Map<u32, u32>,
    max_map: Map<u32, u32>,
    new_vec: Seq<(u32, (u32, u32))>,
)
    requires
        c.wf(),
        symbols_valid(c, s),
        costs_fit(c, s.len()),
        i < s.len(),
        check_fwd_row_ok(c, s, i, pairs),
        min_map == offer_all(Bound::Min, fwd_cands(c, proj_min(pairs), s[i as int], pairs.len() as int)),
        max_map == offer_all(Bound::Max, fwd_cands(c, proj_max(pairs), s[i as int], pairs.len() as int)),
        strictly_sorted(proj_min(new_vec)),
        forall|k: int| 0 <= k < new_vec.len() ==> (#[trigger] new_vec[k]).0 < c.states()
            && min_map.contains_key(new_vec[k].0) && max_map.contains_key(new_vec[k].0)
            && new_vec[k].1.0 == min_map[new_vec[k].0] && new_vec[k].1.1 == max_map[new_vec[k].0],
        forall|q: u32| q < c.states() && #[trigger] min_map.contains_key(q) && max_map.contains_key(q) ==>
            exists|k: int| 0 <= k < new_vec.len() && new_vec[k].0 == q,
    ensures
        check_fwd_row_ok(c, s, i + 1, new_vec),
{
    assert(proj_min(pairs).len() == pairs.len() && proj_max(pairs).len() == pairs.len());
    lemma_fwd_layer(c, s, false, Bound::Min, i, proj_min(pairs), min_map);
    lemma_fwd_layer(c, s, false, Bound::Max, i, proj_max(pairs), max_map);
    assert forall|q: u32| #[trigger] reaches(c, s, false, i + 1, q as int) implies min_map.contains_key(q) && max_map.contains_key(q) by {
        assert(min_map.contains_key(q) && (false ==> q != 0) <==> reaches(c, s, false, i + 1, q as int));
    }
    let pmin = proj_min(new_vec);
    let pmax = proj_max(new_vec);
    assert forall|a: int, b: int| 0 <= a < b < pmax.len() implies #[trigger] pmax[a].0 < #[trigger] pmax[b].0 by {
        assert(pmin[a].0 < pmin[b].0);
    }
    assert forall|q: int| #[trigger] reaches(c, s, false, i + 1, q) implies exists|k: int| 0 <= k < pmin.len() && pmin[k].0 == q by {
        c.lemma_wf();
        let qq = q as u32;
        assert(qq as int == q);
        assert(reaches(c, s, false, i + 1, qq as int));
        assert(min_map.contains_key(qq));
        assert(max_map.contains_key(qq));
        lemma_reaches_cost(c, s, false, i + 1, q);
        let x = choose|x: int| #[trigger] fwd_costs(c, s, false, i + 1, q).contains(x);
        lemma_fwd_bounded(c, s, false, i + 1, q, x);
        assert(qq < c.states());
        let k = choose|k: int| 0 <= k < new_vec.len() && new_vec[k].0 == qq;
        assert(pmin[k].0 == q);
    }
    assert forall|q: int| #[trigger] reaches(c, s, false, i + 1, q) implies exists|k: int| 0 <= k < pmax.len() && pmax[k].0 == q by {
        c.lemma_wf();
        let qq = q as u32;
        assert(qq as int == q);
        assert(reaches(c, s, false, i + 1, qq as int));
        assert(min_map.contains_key(qq) && max_map.contains_key(qq));
        lemma_reaches_cost(c, s, false, i + 1, q);
        let x = choose|x: int| #[trigger] fwd_costs(c, s, false, i + 1, q).contains(x);
        lemma_fwd_bounded(c, s, false, i + 1, q, x);
        let k = choose|k: int| 0 <= k < new_vec.len() && new_vec[k].0 == qq;
        assert(pmax[k].0 == q);
    }
    assert forall|k: int| 0 <= k < pmin.len() implies reaches(c, s, false, i + 1, (#[trigger] pmin[k]).0 as int)
        && is_best(Bound::Min, fwd_costs(c, s, false, i + 1, pmin[k].0 as int), pmin[k].1 as int) by {
    }
    assert forall|k: int| 0 <= k < pmax.len() implies reaches(c, s, false, i + 1, (#[trigger] pmax[k]).0 as int)
        && is_best(Bound::Max, fwd_costs(c, s, false, i + 1, pmax[k].0 as int), pmax[k].1 as int) by {
    }
}

/// Fills the checker's forward table up to position `i` (at most the sequence's
/// length): row `k` lists, by increasing state, each state reached after the
/// first `k` variables, with its least and greatest cost. Rows already there are
/// kept. Over an empty sequence, a position past 0 needs the first row already there.
pub fn compute_qcf_for_check(
    sequence_domains: &Vec<Vec<usize>>,
    c_dfa: &Cdfa,
    qcf_table: &mut Vec<Vec<(u32, (u32, u32))>>,
    i: usize,
)
    requires
        c_dfa.wf(),
        symbols_valid(*c_dfa, views(sequence_domains@)),
        costs_fit(*c_dfa, sequence_domains@.len() as nat),
        !(sequence_domains@.len() == 0 && i > 0 && old(qcf_table)@.len() == 0),
        old(qcf_table)@.len() <= sequence_domains@.len() + 1,
        forall|k: int| 0 <= k < old(qcf_table)@.len() ==>
            check_fwd_row_ok(*c_dfa, views(sequence_domains@), k as nat, #[trigger] old(qcf_table)@[k]@),
    ensures
        final(qcf_table)@.len() == (if old(qcf_table)@.len() > clamp(i as int, sequence_domains@.len() as int) {
            old(qcf_table)@.len() as int
        } else {
            clamp(i as int, sequence_domains@.len() as int) + 1
        }),
        forall|k: int| 0 <= k < old(qcf_table)@.len() ==> #[trigger] final(qcf_table)@[k] == old(qcf_table)@[k],
        forall|k: int| 0 <= k < final(qcf_table)@.len() ==>
            check_fwd_row_ok(*c_dfa, views(sequence_domains@), k as nat, #[trigger] final(qcf_table)@[k]@),
    decreases i,
{
    let n = sequence_domains.len();
    let index = if i > n { n } else { i };
    if index < qcf_table.len() {
        return;
    }
    if i == 0 {
        let mut first: Vec<(u32, (u32, u32))> = Vec::new();
        first.push((c_dfa.initial_state(), (0, 0)));
        proof {
            c_dfa.lemma_wf();
            let syms = views(sequence_domains@);
            let pmin = proj_min(first@);
            let pmax = proj_max(first@);
            assert(pmin[0] == (c_dfa.initial() as u32, 0u32));
            assert(pmax[0] == (c_dfa.initial() as u32, 0u32));
            assert forall|q: int| #[trigger] reaches(*c_dfa, syms, false, 0, q) implies
                exists|k: int| 0 <= k < pmin.len() && pmin[k].0 == q by {
                lemma_fwd_base(*c_dfa, syms, false, q, 0);
            }
            assert forall|q: int| #[trigger] reaches(*c_dfa, syms, false, 0, q) implies
                exists|k: int| 0 <= k < pmax.len() && pmax[k].0 == q by {
                lemma_fwd_base(*c_dfa, syms, false, q, 0);
            }
            assert forall|x: int| #[trigger] fwd_costs(*c_dfa, syms, false, 0, c_dfa.initial()).contains(x) implies
                no_worse(Bound::Min, 0, x) && no_worse(Bound::Max, 0, x) by {
                lemma_fwd_base(*c_dfa, syms, false, c_dfa.initial(), x);
            }
            lemma_fwd_base(*c_dfa, syms, false, c_dfa.initial(), 0);
        }
        qcf_table.insert(0, first);
        return;
    }
    compute_qcf_for_check(sequence_domains, c_dfa, qcf_table, index - 1);
    let pairs = &qcf_table[index - 1];
    let symbols = &sequence_domains[index - 1];
    proof {
        let syms = views(sequence_domains@);
        let k0 = (index - 1) as nat;
        assert(check_fwd_row_ok(*c_dfa, syms, k0, pairs@));
        assert(syms[index - 1] == symbols@);
        assert forall|t: int| 0 <= t < symbols@.len() implies #[trigger] symbols@[t] < c_dfa.inputs() by {
            assert(syms[index - 1][t] < c_dfa.inputs());
        }
        assert forall|k: int| 0 <= k < pairs@.len() implies (#[trigger] pairs@[k]).0 < c_dfa.states()
            && pairs@[k].1.0 + c_dfa.max_cost() <= u32::MAX && pairs@[k].1.1 + c_dfa.max_cost() <= u32::MAX by {
            assert(proj_min(pairs@)[k] == (pairs@[k].0, pairs@[k].1.0));
            assert(proj_max(pairs@)[k] == (pairs@[k].0, pairs@[k].1.1));
            lemma_fwd_bounded(*c_dfa, syms, false, k0, pairs@[k].0 as int, pairs@[k].1.0 as int);
            lemma_fwd_bounded(*c_dfa, syms, false, k0, pairs@[k].0 as int, pairs@[k].1.1 as int);
            assert(k0 * c_dfa.max_cost() + c_dfa.max_cost() <= n * c_dfa.max_cost()) by (nonlinear_arith)
                requires
                    k0 + 1 <= n,
            ;
        }
    }
    let (new_min_pairs, new_max_pairs) = offer_forward_both(c_dfa, pairs, symbols);
    let new_vec = collect_both(c_dfa, &new_min_pairs, &new_max_pairs);
    proof {
        let syms = views(sequence_domains@);
        lemma_check_fwd_row(*c_dfa, syms, (index - 1) as nat, pairs@, new_min_pairs@, new_max_pairs@, new_vec@);
    }
    qcf_table.insert(index, new_vec);
}

/// Offers to two maps, for each listed entry in turn, each allowed symbol in turn
/// and each state in turn entering the entry's state by that symbol, the state
/// with its least and with its greatest cost through the step.
fn offer_backward_both(c_dfa: &Cdfa, pairs: &Vec<(u32, (u32, u32))>, symbols: &Vec<usize>) -> (maps: (HashMap<u32, u32>, HashMap<u32, u32>))
    requires
        c_dfa.wf(),
        forall|t: int| 0 <= t < symbols@.len() ==> #[trigger] symbols@[t] < c_dfa.inputs(),
        forall|k: int| 0 <= k < pairs@.len() ==> (#[trigger] pairs@[k]).1.0 + c_dfa.max_cost() <= u32::MAX
            && pairs@[k].1.1 + c_dfa.max_cost() <= u32::MAX,
    ensures
        maps.0@ == offer_all(Bound::Min, bwd_cands(*c_dfa, proj_min(pairs@), symbols@, pairs@.len() as int)),
        maps.1@ == offer_all(Bound::Max, bwd_cands(*c_dfa, proj_max(pairs@), symbols@, pairs@.len() as int)),
{
    let mut new_min_pairs: HashMap<u32, u32> = HashMap::new();
    let mut new_max_pairs: HashMap<u32, u32> = HashMap::new();
    let num_states = c_dfa.num_states();
    let ghost pmin = proj_min(pairs@);
    let ghost pmax = proj_max(pairs@);
    let mut r: usize = 0;
    while r < pairs.len()
        invariant
            c_dfa.wf(),
            num_states == c_dfa.states(),
            forall|t: int| 0 <= t < symbols@.len() ==> #[trigger] symbols@[t] < c_dfa.inputs(),
            forall|k: int| 0 <= k < pairs@.len() ==> (#[trigger] pairs@[k]).1.0 + c_dfa.max_cost() <= u32::MAX
                && pairs@[k].1.1 + c_dfa.max_cost() <= u32::MAX,
            pmin == proj_min(pairs@),
            pmax == proj_max(pairs@),
            r <= pairs@.len(),
            new_min_pairs@ == offer_all(Bound::Min, bwd_cands(*c_dfa, pmin, symbols@, r as int)),
            new_max_pairs@ == offer_all(Bound::Max, bwd_cands(*c_dfa, pmax, symbols@, r as int)),
        decreases pairs@.len() - r,
    {
        let (q, (min_c, max_c)) = pairs[r];
        let ghost prmin = pmin[r as int];
        let ghost prmax = pmax[r as int];
        let ghost base_min = bwd_cands(*c_dfa, pmin, symbols@, r as int);
        let ghost base_max = bwd_cands(*c_dfa, pmax, symbols@, r as int);
        proof {
            assert(prmin == (q, min_c));
            assert(prmax == (q, max_c));
            assert(base_min + bwd_cands_pair(*c_dfa, prmin, symbols@, 0) == base_min);
            assert(base_max + bwd_cands_pair(*c_dfa, prmax, symbols@, 0) == base_max);
        }
        let mut t: usize = 0;
        while t < symbols.len()
            invariant
                c_dfa.wf(),
                num_states == c_dfa.states(),
                forall|t: int| 0 <= t < symbols@.len() ==> #[trigger] symbols@[t] < c_dfa.inputs(),
                prmin == (q, min_c),
                prmax == (q, max_c),
                min_c + c_dfa.max_cost() <= u32::MAX,
                max_c + c_dfa.max_cost() <= u32::MAX,
                t <= symbols@.len(),
                new_min_pairs@ == offer_all(Bound::Min, base_min + bwd_cands_pair(*c_dfa, prmin, symbols@, t as int)),
                new_max_pairs@ == offer_all(Bound::Max, base_max + bwd_cands_pair(*c_dfa, prmax, symbols@, t as int)),
            decreases symbols@.len() - t,
        {
            let l = symbols[t];
            let ghost mid_min = base_min + bwd_cands_pair(*c_dfa, prmin, symbols@, t as int);
            let ghost mid_max = base_max + bwd_cands_pair(*c_dfa, prmax, symbols@, t as int);
            proof {
                assert(mid_min + bwd_cands_at(*c_dfa, prmin, l, 0) == mid_min);
                assert(mid_max + bwd_cands_at(*c_dfa, prmax, l, 0) == mid_max);
            }
            let mut prev_q: u32 = 0;
            while prev_q < num_states
                invariant
                    c_dfa.wf(),
                    num_states == c_dfa.states(),
                    l < c_dfa.inputs(),
                    prmin == (q, min_c),
                    prmax == (q, max_c),
                    min_c + c_dfa.max_cost() <= u32::MAX,
                    max_c + c_dfa.max_cost() <= u32::MAX,
                    prev_q <= num_states,
                    new_min_pairs@ == offer_all(Bound::Min, mid_min + bwd_cands_at(*c_dfa, prmin, l, prev_q as int)),
                    new_max_pairs@ == offer_all(Bound::Max, mid_max + bwd_cands_at(*c_dfa, prmax, l, prev_q as int)),
                decreases num_states - prev_q,
            {
                let ghost before_min = mid_min + bwd_cands_at(*c_dfa, prmin, l, prev_q as int);
                let ghost before_max = mid_max + bwd_cands_at(*c_dfa, prmax, l, prev_q as int);
                if c_dfa.next_state(prev_q, l) == q {
                    proof {
                        c_dfa.lemma_wf();
                        assert(c_dfa.cost(prev_q as int, l as int) <= c_dfa.max_cost());
                    }
                    let step = c_dfa.step_cost(prev_q, l);
                    let new_min_c = min_c + step;
                    let new_max_c = max_c + step;
                    crate::cdfa_tables::insert_bound(&mut new_min_pairs, prev_q, new_min_c, Bound::Min);
                    crate::cdfa_tables::insert_bound(&mut new_max_pairs, prev_q, new_max_c, Bound::Max);
                    proof {
                        assert(bwd_cand(*c_dfa, prmin, l, prev_q as int) == (prev_q, new_min_c));
                        assert(bwd_cand(*c_dfa, prmax, l, prev_q as int) == (prev_q, new_max_c));
                        assert(mid_min + bwd_cands_at(*c_dfa, prmin, l, prev_q + 1) == before_min.push((prev_q, new_min_c)));
                        assert(mid_max + bwd_cands_at(*c_dfa, prmax, l, prev_q + 1) == before_max.push((prev_q, new_max_c)));
                        assert(before_min.push((prev_q, new_min_c)).drop_last() == before_min);
                        assert(before_max.push((prev_q, new_max_c)).drop_last() == before_max);
                    }
                } else {
                    proof {
                        assert(mid_min + bwd_cands_at(*c_dfa, prmin, l, prev_q + 1) == before_min);
                        assert(mid_max + bwd_cands_at(*c_dfa, prmax, l, prev_q + 1) == before_max);
                    }
                }
                prev_q = prev_q + 1;
            }
            proof {
                assert(base_min + bwd_cands_pair(*c_dfa, prmin, symbols@, t + 1) == mid_min + bwd_cands_at(*c_dfa, prmin, l, num_states as int));
                assert(base_max + bwd_cands_pair(*c_dfa, prmax, symbols@, t + 1) == mid_max + bwd_cands_at(*c_dfa, prmax, l, num_states as int));
            }
            t = t + 1;
        }
        proof {
            assert(bwd_cands(*c_dfa, pmin, symbols@, r + 1) == base_min + bwd_cands_pair(*c_dfa, prmin, symbols@, symbols@.len() as int));
            assert(bwd_cands(*c_dfa, pmax, symbols@, r + 1) == base_max + bwd_cands_pair(*c_dfa, prmax, symbols@, symbols@.len() as int));
        }
        r = r + 1;
    }
    (new_min_pairs, new_max_pairs)
}

/// A row built from the offered maps of a correct backward row is correct.
proof fn lemma_check_bwd_row(
    c: Cdfa,
    s: Seq<Seq<usize>>,
    l: nat,
    pairs: Seq<(u32, (u32, u32))>,
    min_map: Map<u32, u32>,
    max_map: Map<u32, u32>,
    new_vec: Seq<(u32, (u32, u32))>,
)
    requires
        c.wf(),
        symbols_valid(c, s),
        costs_fit(c, s.len()),
        l < s.len(),
        check_bwd_row_ok(c, s, l + 1, pairs),
        min_map == offer_all(Bound::Min, bwd_cands(c, proj_min(pairs), s[l as int], pairs.len() as int)),
        max_map == offer_all(Bound::Max, bwd_cands(c, proj_max(pairs), s[l as int], pairs.len() as int)),
        strictly_sorted(proj_min(new_vec)),
        forall|k: int| 0 <= k < new_vec.len() ==> (#[trigger] new_vec[k]).0 < c.states()
            && min_map.contains_key(new_vec[k].0) && max_map.contains_key(new_vec[k].0)
            && new_vec[k].1.0 == min_map[new_vec[k].0] && new_vec[k].1.1 == max_map[new_vec[k].0],
        forall|q: u32| q < c.states() && #[trigger] min_map.contains_key(q) && max_map.contains_key(q) ==>
            exists|k: int| 0 <= k < new_vec.len() && new_vec[k].0 == q,
    ensures
        check_bwd_row_ok(c, s, l, new_vec),
{
    assert(proj_min(pairs).len() == pairs.len() && proj_max(pairs).len() == pairs.len());
    lemma_bwd_layer(c, s, false, Bound::Min, l, proj_min(pairs), min_map);
    lemma_bwd_layer(c, s, false, Bound::Max, l, proj_max(pairs), max_map);
    assert forall|p: u32| #[trigger] co_reaches(c, s, false, l, p as int) implies min_map.contains_key(p) && max_map.contains_key(p) by {
        assert(min_map.contains_key(p) && (false ==> p != 0) <==> co_reaches(c, s, false, l, p as int));
        assert(max_map.contains_key(p) && (false ==> p != 0) <==> co_reaches(c, s, false, l, p as int));
    }
    let pmin = proj_min(new_vec);
    let pmax = proj_max(new_vec);
    assert forall|a: int, b: int| 0 <= a < b < pmax.len() implies #[trigger] pmax[a].0 < #[trigger] pmax[b].0 by {
        assert(pmin[a].0 < pmin[b].0);
    }
    assert forall|p: int| #[trigger] co_reaches(c, s, false, l, p) implies exists|k: int| 0 <= k < pmin.len() && pmin[k].0 == p
        && exists|k2: int| 0 <= k2 < pmax.len() && pmax[k2].0 == p by {
        c.lemma_wf();
        let pp = p as u32;
        assert(pp as int == p);
        assert(co_reaches(c, s, false, l, pp as int));
        assert(min_map.contains_key(pp) && max_map.contains_key(pp));
        lemma_co_reaches_cost(c, s, false, l, p);
        let x = choose|x: int| #[trigger] crate::cdfa::bwd_costs(c, s, false, l, p).contains(x);
        lemma_bwd_bounded(c, s, false, l, p, x);
        let k = choose|k: int| 0 <= k < new_vec.len() && new_vec[k].0 == pp;
        assert(pmin[k].0 == p);
        assert(pmax[k].0 == p);
    }
    assert forall|k: int| 0 <= k < pmin.len() implies co_reaches(c, s, false, l, (#[trigger] pmin[k]).0 as int)
        && crate::cdfa::is_best(Bound::Min, crate::cdfa::bwd_costs(c, s, false, l, pmin[k].0 as int), pmin[k].1 as int) by {
    }
    assert forall|k: int| 0 <= k < pmax.len() implies co_reaches(c, s, false, l, (#[trigger] pmax[k]).0 as int)
        && crate::cdfa::is_best(Bound::Max, crate::cdfa::bwd_costs(c, s, false, l, pmax[k].0 as int), pmax[k].1 as int) by {
    }
}

/// Fills the checker's backward table, and on the way its forward table up to the
/// sequence's length: with `m` the position `i` (at most the sequence's length),
/// when the backward table holds more than `m` rows nothing changes; otherwise
/// rows for the positions from the end down to `m` are put before the rows
/// already there, row `k` listing, by increasing state, each state from which
/// the last `k` variables can be read into a state reached after all variables,
/// with its least and greatest cost.
pub fn compute_qcb_and_qcf_for_check(
    sequence_domains: &Vec<Vec<usize>>,
    c_dfa: &Cdfa,
    qcf_table: &mut Vec<Vec<(u32, (u32, u32))>>,
    qcb_table: &mut Vec<Vec<(u32, (u32, u32))>>,
    i: usize,
)
    requires
        c_dfa.wf(),
        symbols_valid(*c_dfa, views(sequence_domains@)),
        costs_fit(*c_dfa, sequence_domains@.len() as nat),
        old(qcf_table)@.len() <= sequence_domains@.len() + 1,
        forall|k: int| 0 <= k < old(qcf_table)@.len() ==>
            check_fwd_row_ok(*c_dfa, views(sequence_domains@), k as nat, #[trigger] old(qcf_table)@[k]@),
    ensures
        clamp(i as int, sequence_domains@.len() as int) < old(qcb_table)@.len() ==>
            final(qcb_table)@ == old(qcb_table)@ && final(qcf_table)@ == old(qcf_table)@,
        clamp(i as int, sequence_domains@.len() as int) >= old(qcb_table)@.len() ==> {
            let fresh = sequence_domains@.len() - clamp(i as int, sequence_domains@.len() as int) + 1;
            &&& final(qcf_table)@.len() == sequence_domains@.len() + 1
            &&& forall|k: int| 0 <= k < final(qcf_table)@.len() ==>
                check_fwd_row_ok(*c_dfa, views(sequence_domains@), k as nat, #[trigger] final(qcf_table)@[k]@)
            &&& final(qcb_table)@.len() == fresh + old(qcb_table)@.len()
            &&& forall|k: int| 0 <= k < fresh ==>
                check_bwd_row_ok(*c_dfa, views(sequence_domains@), (sequence_domains@.len() - k) as nat, #[trigger] final(qcb_table)@[k]@)
            &&& forall|k: int| fresh <= k < final(qcb_table)@.len() ==> #[trigger] final(qcb_table)@[k] == old(qcb_table)@[k - fresh]
        },
    decreases sequence_domains@.len() - i,
{
    let ghost old_qcb = qcb_table@;
    let n = sequence_domains.len();
    let index = if i > n { n } else { i };
    if index < qcb_table.len() {
        return;
    }
    if index == n {
        compute_qcf_for_check(sequence_domains, c_dfa, qcf_table, n);
        let last = &qcf_table[n];
        let mut first: Vec<(u32, (u32, u32))> = Vec::new();
        let mut k: usize = 0;
        while k < last.len()
            invariant
                k <= last@.len(),
                first@.len() == k,
                forall|j: int| 0 <= j < k ==> #[trigger] first@[j] == (last@[j].0, (0u32, 0u32)),
            decreases last@.len() - k,
        {
            let (q, _) = last[k];
            first.push((q, (0, 0)));
            k = k + 1;
        }
        proof {
            let syms = views(sequence_domains@);
            assert(check_fwd_row_ok(*c_dfa, syms, n as nat, last@));
            let lmin = proj_min(last@);
            let pmin = proj_min(first@);
            let pmax = proj_max(first@);
            assert forall|j: int| 0 <= j < first@.len() implies co_reaches(*c_dfa, syms, false, n as nat, (#[trigger] pmin[j]).0 as int)
                && crate::cdfa::is_best(Bound::Min, crate::cdfa::bwd_costs(*c_dfa, syms, false, n as nat, pmin[j].0 as int), pmin[j].1 as int)
                && crate::cdfa::is_best(Bound::Max, crate::cdfa::bwd_costs(*c_dfa, syms, false, n as nat, pmin[j].0 as int), pmax[j].1 as int)
                && pmax[j].0 == pmin[j].0 by {
                let q = last@[j].0 as int;
                assert(lmin[j].0 == last@[j].0);
                assert(reaches(*c_dfa, syms, false, n as nat, q));
                lemma_reaches_cost(*c_dfa, syms, false, n as nat, q);
                let x = choose|x: int| #[trigger] fwd_costs(*c_dfa, syms, false, n as nat, q).contains(x);
                lemma_fwd_bounded(*c_dfa, syms, false, n as nat, q, x);
                lemma_bwd_base(*c_dfa, syms, false, q, 0);
                assert forall|y: int| #[trigger] crate::cdfa::bwd_costs(*c_dfa, syms, false, n as nat, q).contains(y) implies
                    no_worse(Bound::Min, 0, y) && no_worse(Bound::Max, 0, y) by {
                    lemma_bwd_base(*c_dfa, syms, false, q, y);
                }
            }
            assert forall|p: int| #[trigger] co_reaches(*c_dfa, syms, false, n as nat, p) implies
                exists|j: int| 0 <= j < pmin.len() && pmin[j].0 == p by {
                lemma_bwd_base(*c_dfa, syms, false, p, 0);
                let j = choose|j: int| 0 <= j < lmin.len() && lmin[j].0 == p;
                assert(pmin[j].0 == p);
            }
            assert forall|p: int| #[trigger] co_reaches(*c_dfa, syms, false, n as nat, p) implies
                exists|j: int| 0 <= j < pmax.len() && pmax[j].0 == p by {
                lemma_bwd_base(*c_dfa, syms, false, p, 0);
                let j = choose|j: int| 0 <= j < lmin.len() && lmin[j].0 == p;
                assert(pmax[j].0 == p);
            }
            assert(strictly_sorted(pmin)) by {
                assert forall|a: int, b: int| 0 <= a < b < pmin.len() implies #[trigger] pmin[a].0 < #[trigger] pmin[b].0 by {
                    assert(lmin[a].0 < lmin[b].0);
                }
            }
            assert(strictly_sorted(pmax)) by {
                assert forall|a: int, b: int| 0 <= a < b < pmax.len() implies #[trigger] pmax[a].0 < #[trigger] pmax[b].0 by {
                    assert(lmin[a].0 < lmin[b].0);
                }
            }
            assert forall|j: int| 0 <= j < pmax.len() implies co_reaches(*c_dfa, syms, false, n as nat, (#[trigger] pmax[j]).0 as int)
                && crate::cdfa::is_best(Bound::Max, crate::cdfa::bwd_costs(*c_dfa, syms, false, n as nat, pmax[j].0 as int), pmax[j].1 as int) by {
                assert(pmax[j].0 == pmin[j].0);
            }
        }
        qcb_table.insert(0, first);
        proof {
            assert forall|k: int| 1 <= k < qcb_table@.len() implies #[trigger] qcb_table@[k] == old_qcb[k - 1] by {}
        }
        return;
    }
    compute_qcb_and_qcf_for_check(sequence_domains, c_dfa, qcf_table, qcb_table, index + 1);
    let ghost mid = qcb_table@;
    let pairs = &qcb_table[n - index - 1];
    let symbols = &sequence_domains[index];
    proof {
        let syms = views(sequence_domains@);
        assert(check_bwd_row_ok(*c_dfa, syms, (index + 1) as nat, pairs@));
        assert(syms[index as int] == symbols@);
        assert forall|t: int| 0 <= t < symbols@.len() implies #[trigger] symbols@[t] < c_dfa.inputs() by {
            assert(syms[index as int][t] < c_dfa.inputs());
        }
        assert forall|k: int| 0 <= k < pairs@.len() implies (#[trigger] pairs@[k]).1.0 + c_dfa.max_cost() <= u32::MAX
            && pairs@[k].1.1 + c_dfa.max_cost() <= u32::MAX by {
            assert(proj_min(pairs@)[k] == (pairs@[k].0, pairs@[k].1.0));
            assert(proj_max(pairs@)[k] == (pairs@[k].0, pairs@[k].1.1));
            lemma_bwd_bounded(*c_dfa, syms, false, (index + 1) as nat, pairs@[k].0 as int, pairs@[k].1.0 as int);
            lemma_bwd_bounded(*c_dfa, syms, false, (index + 1) as nat, pairs@[k].0 as int, pairs@[k].1.1 as int);
            assert((n - (index + 1)) * c_dfa.max_cost() + c_dfa.max_cost() <= n * c_dfa.max_cost()) by (nonlinear_arith)
                requires
                    index < n,
            ;
        }
    }
    let (new_min_pairs, new_max_pairs) = offer_backward_both(c_dfa, pairs, symbols);
    let new_vec = collect_both(c_dfa, &new_min_pairs, &new_max_pairs);
    proof {
        let syms = views(sequence_domains@);
        lemma_check_bwd_row(*c_dfa, syms, index as nat, pairs@, new_min_pairs@, new_max_pairs@, new_vec@);
    }
    qcb_table.insert(n - index, new_vec);
    proof {
        let f = (n - index + 1) as int;
        assert(qcb_table@[n - index] == new_vec);
        assert forall|k: int| 0 <= k < n - index implies #[trigger] qcb_table@[k] == mid[k] by {}
        assert forall|k: int| f <= k < qcb_table@.len() implies #[trigger] qcb_table@[k] == old_qcb[k - f] by {
            assert(qcb_table@[k] == mid[k - 1]);
        }
    }
}


// ------------------------------------------------------- checker and propagator

/// Two rows sorted by strictly increasing state that hold the same pairs are equal.
proof fn lemma_sorted_rows_equal(a: Seq<(u32, u32)>, b: Seq<(u32, u32)>)
    requires
        strictly_sorted(a),
        strictly_sorted(b),
        forall|e: (u32, u32)| #[trigger] a.contains(e) <==> b.contains(e),
    ensures
        a == b,
    decreases a.len(),
{
    if a.len() == 0 {
        if b.len() > 0 {
            assert(b.contains(b[0]));
            assert(a.contains(b[0]));
        }
        assert(a =~= b);
    } else {
        assert(a.contains(a[0]));
        let k = choose|k: int| 0 <= k < b.len() && b[k] == a[0];
        assert(b.contains(b[0]));
        assert(a.contains(b[0]));
        let j = choose|j: int| 0 <= j < a.len() && a[j] == b[0];
        if k > 0 && j > 0 {
            assert(b[0].0 < b[k].0);
            assert(a[0].0 < a[j].0);
        }
        assert(a[0] == b[0]);
        let a1 = a.drop_first();
        let b1 = b.drop_first();
        assert forall|e: (u32, u32)| #[trigger] a1.contains(e) <==> b1.contains(e) by {
            if a1.contains(e) {
                let x = choose|x: int| 0 <= x < a1.len() && a1[x] == e;
                assert(a[x + 1] == e);
                assert(a[0].0 < a[x + 1].0);
                assert(a.contains(e));
                assert(b.contains(e));
                let y = choose|y: int| 0 <= y < b.len() && b[y] == e;
                assert(y != 0);
                assert(b1[y - 1] == e);
            }
            if b1.contains(e) {
                let x = choose|x: int| 0 <= x < b1.len() && b1[x] == e;
                assert(b[x + 1] == e);
                assert(b[0].0 < b[x + 1].0);
                assert(b.contains(e));
                assert(a.contains(e));
                let y = choose|y: int| 0 <= y < a.len() && a[y] == e;
                assert(a[0] == b[0]);
                assert(y != 0);
                assert(a1[y - 1] == e);
            }
        }
        assert forall|x: int, y: int| 0 <= x < y < a1.len() implies #[trigger] a1[x].0 < #[trigger] a1[y].0 by {
            assert(a[x + 1].0 < a[y + 1].0);
        }
        assert forall|x: int, y: int| 0 <= x < y < b1.len() implies #[trigger] b1[x].0 < #[trigger] b1[y].0 by {
            assert(b[x + 1].0 < b[y + 1].0);
        }
        lemma_sorted_rows_equal(a1, b1);
        assert forall|x: int| 0 <= x < a.len() implies a[x] == b[x] by {
            if x > 0 {
                assert(a[x] == a1[x - 1]);
                assert(b[x] == b1[x - 1]);
            }
        }
        assert(a =~= b);
    }
}

/// A checker row whose least and greatest costs are those of the rows `mn` and
/// `mx` is the row that `combine_table` makes of them, read as (state, (least, greatest)).
proof fn lemma_row_of_combined(row: Seq<(u32, (u32, u32))>, mn: Seq<(u32, u32)>, mx: Seq<(u32, u32)>, table: Seq<(u32, u32, u32)>)
    requires
        proj_min(row) == mn,
        proj_max(row) == mx,
        strictly_sorted(mn),
        strictly_sorted(mx),
        strictly_sorted3(table),
        forall|q: u32, a: u32, b: u32| #[trigger] table.contains((q, a, b)) <==> mn.contains((q, a)) && mx.contains((q, b)),
    ensures
        row == table.map_values(|e: (u32, u32, u32)| (e.0, (e.1, e.2))),
{
    let tm = table.map_values(|e: (u32, u32, u32)| (e.0, e.1));
    let tx = table.map_values(|e: (u32, u32, u32)| (e.0, e.2));
    assert forall|x: int, y: int| 0 <= x < y < tm.len() implies #[trigger] tm[x].0 < #[trigger] tm[y].0 by {
        assert(table[x].0 < table[y].0);
    }
    assert forall|x: int, y: int| 0 <= x < y < tx.len() implies #[trigger] tx[x].0 < #[trigger] tx[y].0 by {
        assert(table[x].0 < table[y].0);
    }
    assert forall|e: (u32, u32)| #[trigger] tm.contains(e) <==> mn.contains(e) by {
        if tm.contains(e) {
            let x = choose|x: int| 0 <= x < tm.len() && tm[x] == e;
            assert(table.contains(table[x]));
            assert(table[x] == (e.0, e.1, table[x].2));
        }
        if mn.contains(e) {
            let k = choose|k: int| 0 <= k < mn.len() && mn[k] == e;
            assert(mn[k] == (row[k].0, row[k].1.0));
            assert(mx[k] == (row[k].0, row[k].1.1));
            assert(mx.contains(mx[k]));
            assert(table.contains((e.0, e.1, row[k].1.1)));
            let x = choose|x: int| 0 <= x < table.len() && table[x] == (e.0, e.1, row[k].1.1);
            assert(tm[x] == e);
        }
    }
    assert forall|e: (u32, u32)| #[trigger] tx.contains(e) <==> mx.contains(e) by {
        if tx.contains(e) {
            let x = choose|x: int| 0 <= x < tx.len() && tx[x] == e;
            assert(table.contains(table[x]));
            assert(table[x] == (e.0, table[x].1, e.1));
        }
        if mx.contains(e) {
            let k = choose|k: int| 0 <= k < mx.len() && mx[k] == e;
            assert(mn[k] == (row[k].0, row[k].1.0));
            assert(mx[k] == (row[k].0, row[k].1.1));
            assert(mn.contains(mn[k]));
            assert(table.contains((e.0, row[k].1.0, e.1)));
            let x = choose|x: int| 0 <= x < table.len() && table[x] == (e.0, row[k].1.0, e.1);
            assert(tx[x] == e);
        }
    }
    lemma_sorted_rows_equal(tm, mn);
    lemma_sorted_rows_equal(tx, mx);
    let r2 = table.map_values(|e: (u32, u32, u32)| (e.0, (e.1, e.2)));
    assert forall|k: int| 0 <= k < row.len() implies row[k] == r2[k] by {
        assert(mn[k] == (row[k].0, row[k].1.0));
        assert(mx[k] == (row[k].0, row[k].1.1));
        assert(tm[k] == (table[k].0, table[k].1));
        assert(tx[k] == (table[k].0, table[k].2));
    }
    assert(row =~= r2);
}

/// Over the same symbols, a forward row of the checker holds the propagator's
/// forward rows: its (state, least cost) pairs are the least-cost row, its
/// (state, greatest cost) pairs the greatest-cost row, and it is the row that
/// `combine_table` makes of the two (whose contract `table` meets).
pub proof fn lemma_check_fwd_row_combines(
    c: Cdfa,
    s: Seq<Seq<usize>>,
    i: nat,
    row: Seq<(u32, (u32, u32))>,
    mn: Seq<(u32, u32)>,
    mx: Seq<(u32, u32)>,
    table: Seq<(u32, u32, u32)>,
)
    requires
        c.wf(),
        symbols_valid(c, s),
        i <= s.len(),
        check_fwd_row_ok(c, s, i, row),
        fwd_row_ok(c, s, false, Bound::Min, i, mn),
        fwd_row_ok(c, s, false, Bound::Max, i, mx),
        strictly_sorted3(table),
        forall|q: u32, a: u32, b: u32| #[trigger] table.contains((q, a, b)) <==> mn.contains((q, a)) && mx.contains((q, b)),
    ensures
        proj_min(row) == mn,
        proj_max(row) == mx,
        row == table.map_values(|e: (u32, u32, u32)| (e.0, (e.1, e.2))),
{
    lemma_fwd_row_pairs(c, s, false, Bound::Min, i, proj_min(row));
    lemma_fwd_row_pairs(c, s, false, Bound::Min, i, mn);
    lemma_fwd_row_pairs(c, s, false, Bound::Max, i, proj_max(row));
    lemma_fwd_row_pairs(c, s, false, Bound::Max, i, mx);
    assert forall|e: (u32, u32)| #[trigger] proj_min(row).contains(e) <==> mn.contains(e) by {
        assert(proj_min(row).contains((e.0, e.1)) == mn.contains((e.0, e.1)));
    }
    assert forall|e: (u32, u32)| #[trigger] proj_max(row).contains(e) <==> mx.contains(e) by {
        assert(proj_max(row).contains((e.0, e.1)) == mx.contains((e.0, e.1)));
    }
    lemma_sorted_rows_equal(proj_min(row), mn);
    lemma_sorted_rows_equal(proj_max(row), mx);
    lemma_row_of_combined(row, mn, mx, table);
}

/// Over the same symbols, a backward row of the checker holds the propagator's
/// backward rows in the same way.
pub proof fn lemma_check_bwd_row_combines(
    c: Cdfa,
    s: Seq<Seq<usize>>,
    l: nat,
    row: Seq<(u32, (u32, u32))>,
    mn: Seq<(u32, u32)>,
    mx: Seq<(u32, u32)>,
    table: Seq<(u32, u32, u32)>,
)
    requires
        c.wf(),
        symbols_valid(c, s),
        l <= s.len(),
        check_bwd_row_ok(c, s, l, row),
        bwd_row_ok(c, s, false, Bound::Min, l, mn),
        bwd_row_ok(c, s, false, Bound::Max, l, mx),
        strictly_sorted3(table),
        forall|q: u32, a: u32, b: u32| #[trigger] table.contains((q, a, b)) <==> mn.contains((q, a)) && mx.contains((q, b)),
    ensures
        proj_min(row) == mn,
        proj_max(row) == mx,
        row == table.map_values(|e: (u32, u32, u32)| (e.0, (e.1, e.2))),
{
    lemma_bwd_row_pairs(c, s, false, Bound::Min, l, proj_min(row));
    lemma_bwd_row_pairs(c, s, false, Bound::Min, l, mn);
    lemma_bwd_row_pairs(c, s, false, Bound::Max, l, proj_max(row));
    lemma_bwd_row_pairs(c, s, false, Bound::Max, l, mx);
    assert forall|e: (u32, u32)| #[trigger] proj_min(row).contains(e) <==> mn.contains(e) by {
        assert(proj_min(row).contains((e.0, e.1)) == mn.contains((e.0, e.1)));
    }
    assert forall|e: (u32, u32)| #[trigger] proj_max(row).contains(e) <==> mx.contains(e) by {
        assert(proj_max(row).contains((e.0, e.1)) == mx.contains((e.0, e.1)));
    }
    lemma_sorted_rows_equal(proj_min(row), mn);
    lemma_sorted_rows_equal(proj_max(row), mx);
    lemma_row_of_combined(row, mn, mx, table);
}

/// Over the same symbols, the tables the checker fills hold the propagator's
/// tables row by row: the (state, least cost) pairs of each forward and each
/// backward row are the least-cost table's row, and the (state, greatest cost)
/// pairs the greatest-cost table's row.
pub proof fn lemma_check_tables_combine(
    c: Cdfa,
    s: Seq<Seq<usize>>,
    qcf: Seq<Vec<(u32, (u32, u32))>>,
    qcb: Seq<Vec<(u32, (u32, u32))>>,
    min_qcf: Seq<Vec<(u32, u32)>>,
    max_qcf: Seq<Vec<(u32, u32)>>,
    min_qcb: Seq<Vec<(u32, u32)>>,
    max_qcb: Seq<Vec<(u32, u32)>>,
)
    requires
        c.wf(),
        symbols_valid(c, s),
        qcf.len() == s.len() + 1,
        min_qcf.len() == s.len() + 1,
        max_qcf.len() == s.len() + 1,
        qcb.len() == s.len() + 1,
        min_qcb.len() == s.len() + 1,
        max_qcb.len() == s.len() + 1,
        forall|k: int| 0 <= k <= s.len() ==> check_fwd_row_ok(c, s, k as nat, #[trigger] qcf[k]@),
        forall|k: int| 0 <= k <= s.len() ==> fwd_row_ok(c, s, false, Bound::Min, k as nat, #[trigger] min_qcf[k]@),
        forall|k: int| 0 <= k <= s.len() ==> fwd_row_ok(c, s, false, Bound::Max, k as nat, #[trigger] max_qcf[k]@),
        forall|k: int| 0 <= k <= s.len() ==> check_bwd_row_ok(c, s, (s.len() - k) as nat, #[trigger] qcb[k]@),
        forall|k: int| 0 <= k <= s.len() ==> bwd_row_ok(c, s, false, Bound::Min, (s.len() - k) as nat, #[trigger] min_qcb[k]@),
        forall|k: int| 0 <= k <= s.len() ==> bwd_row_ok(c, s, false, Bound::Max, (s.len() - k) as nat, #[trigger] max_qcb[k]@),
    ensures
        forall|k: int| 0 <= k <= s.len() ==> proj_min(#[trigger] qcf[k]@) == min_qcf[k]@ && proj_max(qcf[k]@) == max_qcf[k]@,
        forall|k: int| 0 <= k <= s.len() ==> proj_min(#[trigger] qcb[k]@) == min_qcb[k]@ && proj_max(qcb[k]@) == max_qcb[k]@,
{
    assert forall|k: int| 0 <= k <= s.len() implies proj_min(#[trigger] qcf[k]@) == min_qcf[k]@ && proj_max(qcf[k]@) == max_qcf[k]@ by {
        let row = qcf[k]@;
        assert(check_fwd_row_ok(c, s, k as nat, row));
        assert(fwd_row_ok(c, s, false, Bound::Min, k as nat, min_qcf[k]@));
        assert(fwd_row_ok(c, s, false, Bound::Max, k as nat, max_qcf[k]@));
        lemma_fwd_row_pairs(c, s, false, Bound::Min, k as nat, proj_min(row));
        lemma_fwd_row_pairs(c, s, false, Bound::Min, k as nat, min_qcf[k]@);
        lemma_fwd_row_pairs(c, s, false, Bound::Max, k as nat, proj_max(row));
        lemma_fwd_row_pairs(c, s, false, Bound::Max, k as nat, max_qcf[k]@);
        assert forall|e: (u32, u32)| #[trigger] proj_min(row).contains(e) <==> min_qcf[k]@.contains(e) by {
            assert(proj_min(row).contains((e.0, e.1)) == min_qcf[k]@.contains((e.0, e.1)));
        }
        assert forall|e: (u32, u32)| #[trigger] proj_max(row).contains(e) <==> max_qcf[k]@.contains(e) by {
            assert(proj_max(row).contains((e.0, e.1)) == max_qcf[k]@.contains((e.0, e.1)));
        }
        lemma_sorted_rows_equal(proj_min(row), min_qcf[k]@);
        lemma_sorted_rows_equal(proj_max(row), max_qcf[k]@);
    }
    assert forall|k: int| 0 <= k <= s.len() implies proj_min(#[trigger] qcb[k]@) == min_qcb[k]@ && proj_max(qcb[k]@) == max_qcb[k]@ by {
        let row = qcb[k]@;
        let l = (s.len() - k) as nat;
        assert(check_bwd_row_ok(c, s, l, row));
        assert(bwd_row_ok(c, s, false, Bound::Min, l, min_qcb[k]@));
        assert(bwd_row_ok(c, s, false, Bound::Max, l, max_qcb[k]@));
        lemma_bwd_row_pairs(c, s, false, Bound::Min, l, proj_min(row));
        lemma_bwd_row_pairs(c, s, false, Bound::Min, l, min_qcb[k]@);
        lemma_bwd_row_pairs(c, s, false, Bound::Max, l, proj_max(row));
        lemma_bwd_row_pairs(c, s, false, Bound::Max, l, max_qcb[k]@);
        assert forall|e: (u32, u32)| #[trigger] proj_min(row).contains(e) <==> min_qcb[k]@.contains(e) by {
            assert(proj_min(row).contains((e.0, e.1)) == min_qcb[k]@.contains((e.0, e.1)));
        }
        assert forall|e: (u32, u32)| #[trigger] proj_max(row).contains(e) <==> max_qcb[k]@.contains(e) by {
            assert(proj_max(row).contains((e.0, e.1)) == max_qcb[k]@.contains((e.0, e.1)));
        }
        lemma_sorted_rows_equal(proj_min(row), min_qcb[k]@);
        lemma_sorted_rows_equal(proj_max(row), max_qcb[k]@);
    }
}

} // verus!
