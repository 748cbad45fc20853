//! Propagation of the `regular` constraint with costs: a sequence of variables
//! spells a word of a counting DFA, and a count variable holds the word's total
//! cost. Symbols that no word within the count's bounds can use are removed,
//! and the count's bounds are tightened to the least and greatest total cost.

use enumset::__internal::EnumSetTypeRepr;
use vstd::prelude::*;

use crate::Letter;
use crate::cdfa::{
    Bound, Cdfa, bwd_costs, co_reaches, fwd_costs, is_best, lemma_run_bounds, lemma_run_concat, lemma_run_push, no_worse,
    reaches, run_cost, run_end, symbols_valid, valid_description, word_within,
};
use crate::cdfa_tables::{
    combine_table, compute_qcb_and_qcf, compute_qcf, costs_fit, fwd_row_ok, bwd_row_ok, lemma_fwd_bounded,
    lemma_bwd_bounded, lemma_co_reaches_cost, lemma_reaches_cost, strictly_sorted, strictly_sorted3, views,
};
use crate::regular::{lemma_push_contains, prunes, row_prunes};
use crate::cdfa_checker::RegularCdfaChecker;

verus! {

/// A predicate over the constraint's variables.
#[derive(Clone, Copy, Debug)]
pub enum Predicate {
    /// The variable at this position of the sequence does not take this value.
    SequenceNotEqual(usize, i32),
    /// The count is at least this value.
    CountAtLeast(i32),
    /// The count is at most this value.
    CountAtMost(i32),
    /// The count does not take this value.
    CountNotEqual(i32),
}

/// `EnumSetTypeRepr::to_usize` on a `u32`, which converts it with `as usize`;
/// a `u32` fits a `usize`, so the value is kept.
#[verifier::external_body]
fn repr_to_usize(v: u32) -> (r: usize)
    ensures
        r == v,
{
    v.to_usize()
}

/// `x` is the best cost of `s`, if `s` has one.
pub open spec fn best_of(bound: Bound, s: Set<int>) -> int {
    choose|x: int| is_best(bound, s, x)
}

/// A set has at most one best element.
pub proof fn lemma_best_unique(bound: Bound, s: Set<int>, x: int)
    requires
        is_best(bound, s, x),
    ensures
        best_of(bound, s) == x,
{
    let y = best_of(bound, s);
    assert(is_best(bound, s, y));
    assert(no_worse(bound, x, y) && no_worse(bound, y, x));
}

/// The symbols the variables may take, each value `v` of a domain read as symbol `v - 1`.
pub open spec fn symbols_of(domains: Seq<Vec<Letter>>) -> Seq<Seq<usize>> {
    Seq::new(domains.len(), |i: int| domains[i]@.map_values(|v: Letter| (v - 1) as usize))
}

/// The words through symbol `l` at position `i` can pass `p` there: `p` is
/// reached after `i` variables and the end can be reached from where `l` leads.
pub open spec fn through(c: Cdfa, s: Seq<Seq<usize>>, avoid: bool, i: int, p: int, l: usize) -> bool {
    &&& reaches(c, s, avoid, i as nat, p)
    &&& co_reaches(c, s, avoid, (i + 1) as nat, c.next(p, l as int))
}

/// The least total cost of a word passing `p` with symbol `l` at position `i`:
/// the least cost to reach `p`, the step, and the least cost from there on.
pub open spec fn least_through(c: Cdfa, s: Seq<Seq<usize>>, avoid: bool, i: int, p: int, l: usize) -> int {
    best_of(Bound::Min, fwd_costs(c, s, avoid, i as nat, p)) + c.cost(p, l as int)
        + best_of(Bound::Min, bwd_costs(c, s, avoid, (i + 1) as nat, c.next(p, l as int)))
}

/// The greatest total cost of a word passing `p` with symbol `l` at position `i`.
pub open spec fn greatest_through(c: Cdfa, s: Seq<Seq<usize>>, avoid: bool, i: int, p: int, l: usize) -> int {
    best_of(Bound::Max, fwd_costs(c, s, avoid, i as nat, p)) + c.cost(p, l as int)
        + best_of(Bound::Max, bwd_costs(c, s, avoid, (i + 1) as nat, c.next(p, l as int)))
}

/// The range `lo..=hi` of totals misses the count's bounds `lb..=ub`, the bounds
/// compared as unsigned numbers.
pub open spec fn misses(lb: i32, ub: i32, lo: int, hi: int) -> bool {
    (ub as u32) < lo || hi < (lb as u32)
}

/// Symbol `l` at position `i` is kept: some state it can be read in gives a range
/// of totals that meets the count's bounds.
pub open spec fn supported(c: Cdfa, s: Seq<Seq<usize>>, lb: i32, ub: i32, i: int, l: usize) -> bool {
    exists|p: int| #[trigger] through(c, s, false, i, p, l)
        && !misses(lb, ub, least_through(c, s, false, i, p, l), greatest_through(c, s, false, i, p, l))
}

/// The hole `h` of the count's domain lies in the range of totals of a state
/// that symbol `l` can be read in at position `i`.
pub open spec fn hole_through(c: Cdfa, s: Seq<Seq<usize>>, i: int, l: usize, h: i32) -> bool {
    exists|p: int| #[trigger] through(c, s, false, i, p, l) && least_through(c, s, false, i, p, l) <= h as u32
        && h as u32 <= greatest_through(c, s, false, i, p, l)
}

/// The hole `h` lies in the range of totals of a listed state and successor.
pub open spec fn hole_listed(c: Cdfa, qcf: Seq<(u32, u32, u32)>, qcb: Seq<(u32, u32, u32)>, l: usize, h: i32) -> bool {
    exists|r: int, t: int| #![trigger qcf[r], qcb[t]]
        0 <= r < qcf.len() && 0 <= t < qcb.len() && qcb[t].0 == c.next(qcf[r].0 as int, l as int)
        && qcf[r].1 + c.cost(qcf[r].0 as int, l as int) + qcb[t].1 <= h as u32
        && h as u32 <= qcf[r].2 + c.cost(qcf[r].0 as int, l as int) + qcb[t].2
}

/// Why symbol `l` cannot stand at position `i`: the count's bounds, and each hole
/// of the count's domain inside the range of totals of a state it can be read in.
pub open spec fn impossible_set(c: Cdfa, s: Seq<Seq<usize>>, lb: i32, ub: i32, holes: Seq<i32>, i: int, l: usize) -> Set<Predicate> {
    set![Predicate::CountAtLeast(lb), Predicate::CountAtMost(ub)].union(Set::new(|pr: Predicate|
        exists|h: i32| pr == Predicate::CountNotEqual(h) && #[trigger] holes.contains(h) && hole_through(c, s, i, l, h)))
}

/// The symbols of the first `t` entries of `row` (at position `i`) that `keep` keeps, in order.
pub open spec fn row_kept(keep: spec_fn(int, usize) -> bool, i: int, row: Seq<usize>) -> Seq<usize>
    decreases row.len(),
{
    if row.len() == 0 {
        Seq::empty()
    } else {
        let rest = row_kept(keep, i, row.drop_last());
        if keep(i, row.last()) { rest.push(row.last()) } else { rest }
    }
}

// -------------------------------------------------------- checking one symbol

/// Checks symbol `l` against the combined forward row of its position and the
/// combined backward row of the next: it is supported as soon as a listed state
/// it leads from gives a range of totals that meets `lb..=ub`. When none does,
/// the reason lists the bounds and the holes inside each range.
fn symbol_check(
    c_dfa: &Cdfa,
    qcf: &Vec<(u32, u32, u32)>,
    qcb: &Vec<(u32, u32, u32)>,
    l: usize,
    lb: i32,
    ub: i32,
    holes: &Vec<i32>,
    Ghost(cap): Ghost<int>,
) -> (res: (bool, Vec<Predicate>))
    requires
        c_dfa.wf(),
        l < c_dfa.inputs(),
        cap + c_dfa.max_cost() <= i32::MAX,
        forall|r: int| 0 <= r < qcf@.len() ==> (#[trigger] qcf@[r]).0 < c_dfa.states(),
        forall|r: int, s: int| 0 <= r < qcf@.len() && 0 <= s < qcb@.len() ==>
            (#[trigger] qcf@[r]).1 + (#[trigger] qcb@[s]).1 <= cap && qcf@[r].2 + qcb@[s].2 <= cap,
    ensures
        res.0 <==> exists|r: int, s: int| #![trigger qcf@[r], qcb@[s]]
            0 <= r < qcf@.len() && 0 <= s < qcb@.len() && qcb@[s].0 == c_dfa.next(qcf@[r].0 as int, l as int)
            && !misses(lb, ub, qcf@[r].1 + c_dfa.cost(qcf@[r].0 as int, l as int) + qcb@[s].1,
                qcf@[r].2 + c_dfa.cost(qcf@[r].0 as int, l as int) + qcb@[s].2),
        !res.0 ==> forall|pr: Predicate| #[trigger] res.1@.contains(pr) <==> (pr == Predicate::CountAtLeast(lb)
            || pr == Predicate::CountAtMost(ub) || exists|h: i32, r: int, s: int| #![trigger holes@.contains(h), qcf@[r], qcb@[s]]
                pr == Predicate::CountNotEqual(h) && holes@.contains(h) && 0 <= r < qcf@.len() && 0 <= s < qcb@.len()
                && qcb@[s].0 == c_dfa.next(qcf@[r].0 as int, l as int)
                && qcf@[r].1 + c_dfa.cost(qcf@[r].0 as int, l as int) + qcb@[s].1 <= h as u32
                && h as u32 <= qcf@[r].2 + c_dfa.cost(qcf@[r].0 as int, l as int) + qcb@[s].2),
{
    let mut impossible: Vec<Predicate> = Vec::new();
    impossible.push(Predicate::CountAtLeast(lb));
    impossible.push(Predicate::CountAtMost(ub));
    proof {
        assert(impossible@ == seq![Predicate::CountAtLeast(lb)].push(Predicate::CountAtMost(ub)));
        assert forall|pr: Predicate| #[trigger] impossible@.contains(pr) <==>
            (pr == Predicate::CountAtLeast(lb) || pr == Predicate::CountAtMost(ub)) by {
            lemma_push_contains(seq![Predicate::CountAtLeast(lb)], Predicate::CountAtMost(ub), pr);
            lemma_push_contains(Seq::<Predicate>::empty(), Predicate::CountAtLeast(lb), pr);
            assert(seq![Predicate::CountAtLeast(lb)] == Seq::<Predicate>::empty().push(Predicate::CountAtLeast(lb)));
        }
    }
    let mut r: usize = 0;
    while r < qcf.len()
        invariant
            c_dfa.wf(),
            l < c_dfa.inputs(),
            cap + c_dfa.max_cost() <= i32::MAX,
            forall|r: int| 0 <= r < qcf@.len() ==> (#[trigger] qcf@[r]).0 < c_dfa.states(),
            forall|r: int, s: int| 0 <= r < qcf@.len() && 0 <= s < qcb@.len() ==>
                (#[trigger] qcf@[r]).1 + (#[trigger] qcb@[s]).1 <= cap && qcf@[r].2 + qcb@[s].2 <= cap,
            r <= qcf@.len(),
            forall|r2: int, s: int| #![trigger qcf@[r2], qcb@[s]]
                0 <= r2 < r && 0 <= s < qcb@.len() && qcb@[s].0 == c_dfa.next(qcf@[r2].0 as int, l as int) ==>
                misses(lb, ub, qcf@[r2].1 + c_dfa.cost(qcf@[r2].0 as int, l as int) + qcb@[s].1,
                    qcf@[r2].2 + c_dfa.cost(qcf@[r2].0 as int, l as int) + qcb@[s].2),
            forall|pr: Predicate| #[trigger] impossible@.contains(pr) <==> (pr == Predicate::CountAtLeast(lb)
                || pr == Predicate::CountAtMost(ub) || exists|h: i32, r2: int, s: int| #![trigger holes@.contains(h), qcf@[r2], qcb@[s]]
                    pr == Predicate::CountNotEqual(h) && holes@.contains(h) && 0 <= r2 < r && 0 <= s < qcb@.len()
                    && qcb@[s].0 == c_dfa.next(qcf@[r2].0 as int, l as int)
                    && qcf@[r2].1 + c_dfa.cost(qcf@[r2].0 as int, l as int) + qcb@[s].1 <= h as u32
                    && h as u32 <= qcf@[r2].2 + c_dfa.cost(qcf@[r2].0 as int, l as int) + qcb@[s].2),
        decreases qcf@.len() - r,
    {
        let (prev_q, min_c_before, max_c_before) = qcf[r];
        proof {
            c_dfa.lemma_wf();
        }
        let ref_q = c_dfa.next_state(prev_q, l);
        let step = c_dfa.step_cost(prev_q, l);
        let mut s: usize = 0;
        while s < qcb.len()
            invariant
                c_dfa.wf(),
                l < c_dfa.inputs(),
                cap + c_dfa.max_cost() <= i32::MAX,
                forall|r: int| 0 <= r < qcf@.len() ==> (#[trigger] qcf@[r]).0 < c_dfa.states(),
                forall|r: int, s: int| 0 <= r < qcf@.len() && 0 <= s < qcb@.len() ==>
                    (#[trigger] qcf@[r]).1 + (#[trigger] qcb@[s]).1 <= cap && qcf@[r].2 + qcb@[s].2 <= cap,
                r < qcf@.len(),
                (prev_q, min_c_before, max_c_before) == qcf@[r as int],
                ref_q == c_dfa.next(prev_q as int, l as int),
                step == c_dfa.cost(prev_q as int, l as int),
                step <= c_dfa.max_cost(),
                s <= qcb@.len(),
                forall|r2: int, s2: int| #![trigger qcf@[r2], qcb@[s2]]
                    0 <= r2 < qcf@.len() && 0 <= s2 < qcb@.len() && (r2 < r || (r2 == r && s2 < s))
                    && qcb@[s2].0 == c_dfa.next(qcf@[r2].0 as int, l as int) ==>
                    misses(lb, ub, qcf@[r2].1 + c_dfa.cost(qcf@[r2].0 as int, l as int) + qcb@[s2].1,
                        qcf@[r2].2 + c_dfa.cost(qcf@[r2].0 as int, l as int) + qcb@[s2].2),
                forall|pr: Predicate| #[trigger] impossible@.contains(pr) <==> (pr == Predicate::CountAtLeast(lb)
                    || pr == Predicate::CountAtMost(ub) || exists|h: i32, r2: int, s2: int| #![trigger holes@.contains(h), qcf@[r2], qcb@[s2]]
                        pr == Predicate::CountNotEqual(h) && holes@.contains(h) && 0 <= r2 < qcf@.len() && 0 <= s2 < qcb@.len()
                        && (r2 < r || (r2 == r && s2 < s))
                        && qcb@[s2].0 == c_dfa.next(qcf@[r2].0 as int, l as int)
                        && qcf@[r2].1 + c_dfa.cost(qcf@[r2].0 as int, l as int) + qcb@[s2].1 <= h as u32
                        && h as u32 <= qcf@[r2].2 + c_dfa.cost(qcf@[r2].0 as int, l as int) + qcb@[s2].2),
            decreases qcb@.len() - s,
        {
            let (q, min_c_after, max_c_after) = qcb[s];
            if q == ref_q {
                assert(qcf@[r as int].1 + qcb@[s as int].1 <= cap && qcf@[r as int].2 + qcb@[s as int].2 <= cap);
                let min_c = min_c_before + step + min_c_after;
                let max_c = max_c_before + step + max_c_after;
                if (ub as u32) < min_c || max_c < (lb as u32) {
                    let ghost before = impossible@;
                    let mut k: usize = 0;
                    while k < holes.len()
                        invariant
                            k <= holes@.len(),
                            forall|pr: Predicate| #[trigger] impossible@.contains(pr) <==> (before.contains(pr)
                                || exists|h: i32| pr == Predicate::CountNotEqual(h) && #[trigger] holes@.take(k as int).contains(h)
                                    && min_c <= h as u32 && h as u32 <= max_c),
                        decreases holes@.len() - k,
                    {
                        let v = holes[k];
                        let ghost mid = impossible@;
                        let inside = min_c <= (v as u32) && (v as u32) <= max_c;
                        if inside {
                            impossible.push(Predicate::CountNotEqual(v));
                        }
                        proof {
                            assert(holes@.take(k + 1) == holes@.take(k as int).push(v));
                            assert(inside ==> impossible@ == mid.push(Predicate::CountNotEqual(v)));
                            assert(!inside ==> impossible@ == mid);
                            assert forall|pr: Predicate| #[trigger] impossible@.contains(pr) <==> (before.contains(pr)
                                || exists|h: i32| pr == Predicate::CountNotEqual(h) && #[trigger] holes@.take(k + 1).contains(h)
                                    && min_c <= h as u32 && h as u32 <= max_c) by {
                                lemma_push_contains(mid, Predicate::CountNotEqual(v), pr);
                                if inside && pr == Predicate::CountNotEqual(v) {
                                    lemma_push_contains(holes@.take(k as int), v, v);
                                }
                                if exists|h: i32| pr == Predicate::CountNotEqual(h) && #[trigger] holes@.take(k + 1).contains(h)
                                    && min_c <= h as u32 && h as u32 <= max_c {
                                    let h = choose|h: i32| pr == Predicate::CountNotEqual(h) && #[trigger] holes@.take(k + 1).contains(h)
                                        && min_c <= h as u32 && h as u32 <= max_c;
                                    lemma_push_contains(holes@.take(k as int), v, h);
                                }
                                if exists|h: i32| pr == Predicate::CountNotEqual(h) && #[trigger] holes@.take(k as int).contains(h)
                                    && min_c <= h as u32 && h as u32 <= max_c {
                                    let h = choose|h: i32| pr == Predicate::CountNotEqual(h) && #[trigger] holes@.take(k as int).contains(h)
                                        && min_c <= h as u32 && h as u32 <= max_c;
                                    lemma_push_contains(holes@.take(k as int), v, h);
                                }
                            }
                        }
                        k = k + 1;
                    }
                    proof {
                        assert(holes@.take(holes@.len() as int) == holes@);
                    }
                } else {
                    return (true, impossible);
                }
            }
            s = s + 1;
        }
        r = r + 1;
    }
    (false, impossible)
}

// ------------------------------------------------------------ the tables

/// A combined forward row at position `i`: each state reached, with its least and greatest cost.
pub open spec fn fwd_pairs_ok(c: Cdfa, s: Seq<Seq<usize>>, avoid: bool, i: nat, row: Seq<(u32, u32, u32)>) -> bool {
    &&& forall|k: int| 0 <= k < row.len() ==> reaches(c, s, avoid, i, (#[trigger] row[k]).0 as int)
        && row[k].1 == best_of(Bound::Min, fwd_costs(c, s, avoid, i, row[k].0 as int))
        && row[k].2 == best_of(Bound::Max, fwd_costs(c, s, avoid, i, row[k].0 as int))
    &&& forall|q: int| #[trigger] reaches(c, s, avoid, i, q) ==> exists|k: int| 0 <= k < row.len() && row[k].0 == q
}

/// A combined backward row at position `l`: each state the rest can be read from,
/// with its least and greatest cost.
pub open spec fn bwd_pairs_ok(c: Cdfa, s: Seq<Seq<usize>>, avoid: bool, l: nat, row: Seq<(u32, u32, u32)>) -> bool {
    &&& forall|k: int| 0 <= k < row.len() ==> co_reaches(c, s, avoid, l, (#[trigger] row[k]).0 as int)
        && row[k].1 == best_of(Bound::Min, bwd_costs(c, s, avoid, l, row[k].0 as int))
        && row[k].2 == best_of(Bound::Max, bwd_costs(c, s, avoid, l, row[k].0 as int))
    &&& forall|q: int| #[trigger] co_reaches(c, s, avoid, l, q) ==> exists|k: int| 0 <= k < row.len() && row[k].0 == q
}

/// A correct forward row holds each reached state with its best cost.
pub proof fn lemma_fwd_row_pairs(c: Cdfa, s: Seq<Seq<usize>>, avoid: bool, bound: Bound, i: nat, row: Seq<(u32, u32)>)
    requires
        c.wf(),
        symbols_valid(c, s),
        i <= s.len(),
        fwd_row_ok(c, s, avoid, bound, i, row),
    ensures
        forall|q: u32, a: u32| #[trigger] row.contains((q, a)) <==> reaches(c, s, avoid, i, q as int)
            && a == best_of(bound, fwd_costs(c, s, avoid, i, q as int)),
        forall|k: int| 0 <= k < row.len() ==> (#[trigger] row[k]).1 <= i * c.max_cost() && row[k].0 < c.states(),
{
    c.lemma_wf();
    assert forall|k: int| 0 <= k < row.len() implies (#[trigger] row[k]).1 <= i * c.max_cost() && row[k].0 < c.states() by {
        lemma_fwd_bounded(c, s, avoid, i, row[k].0 as int, row[k].1 as int);
    }
    assert forall|q: u32, a: u32| #[trigger] row.contains((q, a)) <==> reaches(c, s, avoid, i, q as int)
        && a == best_of(bound, fwd_costs(c, s, avoid, i, q as int)) by {
        if row.contains((q, a)) {
            let k = choose|k: int| 0 <= k < row.len() && row[k] == (q, a);
            assert(reaches(c, s, avoid, i, row[k].0 as int));
            lemma_best_unique(bound, fwd_costs(c, s, avoid, i, q as int), a as int);
        }
        if reaches(c, s, avoid, i, q as int) && a == best_of(bound, fwd_costs(c, s, avoid, i, q as int)) {
            let k = choose|k: int| 0 <= k < row.len() && row[k].0 == q as int;
            assert(is_best(bound, fwd_costs(c, s, avoid, i, q as int), row[k].1 as int));
            lemma_best_unique(bound, fwd_costs(c, s, avoid, i, q as int), row[k].1 as int);
            assert(row[k] == (q, a));
        }
    }
}

/// A correct backward row holds each co-reaching state with its best cost.
pub proof fn lemma_bwd_row_pairs(c: Cdfa, s: Seq<Seq<usize>>, avoid: bool, bound: Bound, l: nat, row: Seq<(u32, u32)>)
    requires
        c.wf(),
        symbols_valid(c, s),
        l <= s.len(),
        bwd_row_ok(c, s, avoid, bound, l, row),
    ensures
        forall|q: u32, a: u32| #[trigger] row.contains((q, a)) <==> co_reaches(c, s, avoid, l, q as int)
            && a == best_of(bound, bwd_costs(c, s, avoid, l, q as int)),
        forall|k: int| 0 <= k < row.len() ==> (#[trigger] row[k]).1 <= (s.len() - l) * c.max_cost() && row[k].0 < c.states(),
{
    c.lemma_wf();
    assert forall|k: int| 0 <= k < row.len() implies (#[trigger] row[k]).1 <= (s.len() - l) * c.max_cost() && row[k].0 < c.states() by {
        lemma_bwd_bounded(c, s, avoid, l, row[k].0 as int, row[k].1 as int);
    }
    assert forall|q: u32, a: u32| #[trigger] row.contains((q, a)) <==> co_reaches(c, s, avoid, l, q as int)
        && a == best_of(bound, bwd_costs(c, s, avoid, l, q as int)) by {
        if row.contains((q, a)) {
            let k = choose|k: int| 0 <= k < row.len() && row[k] == (q, a);
            assert(co_reaches(c, s, avoid, l, row[k].0 as int));
            lemma_best_unique(bound, bwd_costs(c, s, avoid, l, q as int), a as int);
        }
        if co_reaches(c, s, avoid, l, q as int) && a == best_of(bound, bwd_costs(c, s, avoid, l, q as int)) {
            let k = choose|k: int| 0 <= k < row.len() && row[k].0 == q as int;
            assert(is_best(bound, bwd_costs(c, s, avoid, l, q as int), row[k].1 as int));
            lemma_best_unique(bound, bwd_costs(c, s, avoid, l, q as int), row[k].1 as int);
            assert(row[k] == (q, a));
        }
    }
}

/// What `symbol_check` finds on the combined rows is what `supported` and
/// `impossible_set` say of the automaton.
proof fn lemma_check_bridge(
    c: Cdfa,
    s: Seq<Seq<usize>>,
    i: nat,
    qcf: Seq<(u32, u32, u32)>,
    qcb: Seq<(u32, u32, u32)>,
    l: usize,
    lb: i32,
    ub: i32,
)
    requires
        c.wf(),
        symbols_valid(c, s),
        i < s.len(),
        l < c.inputs(),
        fwd_pairs_ok(c, s, false, i, qcf),
        bwd_pairs_ok(c, s, false, i + 1, qcb),
    ensures
        (exists|r: int, t: int| #![trigger qcf[r], qcb[t]]
            0 <= r < qcf.len() && 0 <= t < qcb.len() && qcb[t].0 == c.next(qcf[r].0 as int, l as int)
            && !misses(lb, ub, qcf[r].1 + c.cost(qcf[r].0 as int, l as int) + qcb[t].1,
                qcf[r].2 + c.cost(qcf[r].0 as int, l as int) + qcb[t].2)) <==> supported(c, s, lb, ub, i as int, l),
        forall|h: i32| #[trigger] hole_listed(c, qcf, qcb, l, h) == hole_through(c, s, i as int, l, h),
{
    c.lemma_wf();
    assert forall|p: int| #[trigger] through(c, s, false, i as int, p, l) implies exists|r: int, t: int| #![trigger qcf[r], qcb[t]]
        0 <= r < qcf.len() && 0 <= t < qcb.len() && qcf[r].0 == p && qcb[t].0 == c.next(p, l as int) by {
        let r = choose|r: int| 0 <= r < qcf.len() && qcf[r].0 == p;
        let t = choose|t: int| 0 <= t < qcb.len() && qcb[t].0 == c.next(p, l as int);
        assert(qcf[r].0 == p && qcb[t].0 == c.next(p, l as int));
    }
    if supported(c, s, lb, ub, i as int, l) {
        let p = choose|p: int| #[trigger] through(c, s, false, i as int, p, l)
            && !misses(lb, ub, least_through(c, s, false, i as int, p, l), greatest_through(c, s, false, i as int, p, l));
        let (r, t) = choose|r: int, t: int| #![trigger qcf[r], qcb[t]]
            0 <= r < qcf.len() && 0 <= t < qcb.len() && qcf[r].0 == p && qcb[t].0 == c.next(p, l as int);
        assert(qcf[r].1 + c.cost(qcf[r].0 as int, l as int) + qcb[t].1 == least_through(c, s, false, i as int, p, l));
        assert(qcf[r].2 + c.cost(qcf[r].0 as int, l as int) + qcb[t].2 == greatest_through(c, s, false, i as int, p, l));
    }
    if exists|r: int, t: int| #![trigger qcf[r], qcb[t]]
        0 <= r < qcf.len() && 0 <= t < qcb.len() && qcb[t].0 == c.next(qcf[r].0 as int, l as int)
        && !misses(lb, ub, qcf[r].1 + c.cost(qcf[r].0 as int, l as int) + qcb[t].1,
            qcf[r].2 + c.cost(qcf[r].0 as int, l as int) + qcb[t].2) {
        let (r, t) = choose|r: int, t: int| #![trigger qcf[r], qcb[t]]
            0 <= r < qcf.len() && 0 <= t < qcb.len() && qcb[t].0 == c.next(qcf[r].0 as int, l as int)
            && !misses(lb, ub, qcf[r].1 + c.cost(qcf[r].0 as int, l as int) + qcb[t].1,
                qcf[r].2 + c.cost(qcf[r].0 as int, l as int) + qcb[t].2);
        let p = qcf[r].0 as int;
        assert(through(c, s, false, i as int, p, l));
    }
    assert forall|h: i32| #[trigger] hole_listed(c, qcf, qcb, l, h) == hole_through(c, s, i as int, l, h) by {
        if exists|p: int| #[trigger] through(c, s, false, i as int, p, l) && least_through(c, s, false, i as int, p, l) <= h as u32
            && h as u32 <= greatest_through(c, s, false, i as int, p, l) {
            let p = choose|p: int| #[trigger] through(c, s, false, i as int, p, l) && least_through(c, s, false, i as int, p, l) <= h as u32
                && h as u32 <= greatest_through(c, s, false, i as int, p, l);
            let (r, t) = choose|r: int, t: int| #![trigger qcf[r], qcb[t]]
                0 <= r < qcf.len() && 0 <= t < qcb.len() && qcf[r].0 == p && qcb[t].0 == c.next(p, l as int);
            assert(qcf[r].1 + c.cost(qcf[r].0 as int, l as int) + qcb[t].1 == least_through(c, s, false, i as int, p, l));
        }
        if exists|r: int, t: int| #![trigger qcf[r], qcb[t]]
            0 <= r < qcf.len() && 0 <= t < qcb.len() && qcb[t].0 == c.next(qcf[r].0 as int, l as int)
            && qcf[r].1 + c.cost(qcf[r].0 as int, l as int) + qcb[t].1 <= h as u32
            && h as u32 <= qcf[r].2 + c.cost(qcf[r].0 as int, l as int) + qcb[t].2 {
            let (r, t) = choose|r: int, t: int| #![trigger qcf[r], qcb[t]]
                0 <= r < qcf.len() && 0 <= t < qcb.len() && qcb[t].0 == c.next(qcf[r].0 as int, l as int)
                && qcf[r].1 + c.cost(qcf[r].0 as int, l as int) + qcb[t].1 <= h as u32
                && h as u32 <= qcf[r].2 + c.cost(qcf[r].0 as int, l as int) + qcb[t].2;
            let p = qcf[r].0 as int;
            assert(through(c, s, false, i as int, p, l));
        }
    }
}
/// Merging a correct row of least costs with one of greatest costs gives a
/// correct combined forward row, within the cost bounds.
proof fn lemma_combined_fwd(
    c: Cdfa,
    s: Seq<Seq<usize>>,
    avoid: bool,
    i: nat,
    min_row: Seq<(u32, u32)>,
    max_row: Seq<(u32, u32)>,
    comb: Seq<(u32, u32, u32)>,
)
    requires
        c.wf(),
        symbols_valid(c, s),
        i <= s.len(),
        fwd_row_ok(c, s, avoid, Bound::Min, i, min_row),
        fwd_row_ok(c, s, avoid, Bound::Max, i, max_row),
        forall|q: u32, a: u32, b: u32| #[trigger] comb.contains((q, a, b)) <==> min_row.contains((q, a)) && max_row.contains((q, b)),
    ensures
        fwd_pairs_ok(c, s, avoid, i, comb),
        forall|k: int| 0 <= k < comb.len() ==> (#[trigger] comb[k]).0 < c.states() && comb[k].1 <= i * c.max_cost()
            && comb[k].2 <= i * c.max_cost(),
{
    lemma_fwd_row_pairs(c, s, avoid, Bound::Min, i, min_row);
    lemma_fwd_row_pairs(c, s, avoid, Bound::Max, i, max_row);
    assert forall|k: int| 0 <= k < comb.len() implies reaches(c, s, avoid, i, (#[trigger] comb[k]).0 as int)
        && comb[k].1 == best_of(Bound::Min, fwd_costs(c, s, avoid, i, comb[k].0 as int))
        && comb[k].2 == best_of(Bound::Max, fwd_costs(c, s, avoid, i, comb[k].0 as int))
        && comb[k].0 < c.states() && comb[k].1 <= i * c.max_cost() && comb[k].2 <= i * c.max_cost() by {
        let (q, a, b) = comb[k];
        assert(comb.contains((q, a, b)));
        assert(min_row.contains((q, a)) && max_row.contains((q, b)));
        let k1 = choose|k1: int| 0 <= k1 < min_row.len() && min_row[k1] == (q, a);
        let k2 = choose|k2: int| 0 <= k2 < max_row.len() && max_row[k2] == (q, b);
        assert(min_row[k1].1 <= i * c.max_cost() && max_row[k2].1 <= i * c.max_cost());
    }
    assert forall|q: int| #[trigger] reaches(c, s, avoid, i, q) implies exists|k: int| 0 <= k < comb.len() && comb[k].0 == q by {
        let k1 = choose|k1: int| 0 <= k1 < min_row.len() && min_row[k1].0 == q;
        let k2 = choose|k2: int| 0 <= k2 < max_row.len() && max_row[k2].0 == q;
        let (q1, a) = min_row[k1];
        let (q2, b) = max_row[k2];
        assert(min_row.contains((q1, a)) && max_row.contains((q1, b)));
        assert(comb.contains((q1, a, b)));
        let k = choose|k: int| 0 <= k < comb.len() && comb[k] == (q1, a, b);
    }
}

/// Merging a correct backward row of least costs with one of greatest costs gives
/// a correct combined backward row, within the cost bounds.
proof fn lemma_combined_bwd(
    c: Cdfa,
    s: Seq<Seq<usize>>,
    avoid: bool,
    l: nat,
    min_row: Seq<(u32, u32)>,
    max_row: Seq<(u32, u32)>,
    comb: Seq<(u32, u32, u32)>,
)
    requires
        c.wf(),
        symbols_valid(c, s),
        l <= s.len(),
        bwd_row_ok(c, s, avoid, Bound::Min, l, min_row),
        bwd_row_ok(c, s, avoid, Bound::Max, l, max_row),
        forall|q: u32, a: u32, b: u32| #[trigger] comb.contains((q, a, b)) <==> min_row.contains((q, a)) && max_row.contains((q, b)),
    ensures
        bwd_pairs_ok(c, s, avoid, l, comb),
        forall|k: int| 0 <= k < comb.len() ==> (#[trigger] comb[k]).1 <= (s.len() - l) * c.max_cost()
            && comb[k].2 <= (s.len() - l) * c.max_cost(),
{
    lemma_bwd_row_pairs(c, s, avoid, Bound::Min, l, min_row);
    lemma_bwd_row_pairs(c, s, avoid, Bound::Max, l, max_row);
    assert forall|k: int| 0 <= k < comb.len() implies co_reaches(c, s, avoid, l, (#[trigger] comb[k]).0 as int)
        && comb[k].1 == best_of(Bound::Min, bwd_costs(c, s, avoid, l, comb[k].0 as int))
        && comb[k].2 == best_of(Bound::Max, bwd_costs(c, s, avoid, l, comb[k].0 as int))
        && comb[k].1 <= (s.len() - l) * c.max_cost() && comb[k].2 <= (s.len() - l) * c.max_cost() by {
        let (q, a, b) = comb[k];
        assert(comb.contains((q, a, b)));
        assert(min_row.contains((q, a)) && max_row.contains((q, b)));
        let k1 = choose|k1: int| 0 <= k1 < min_row.len() && min_row[k1] == (q, a);
        let k2 = choose|k2: int| 0 <= k2 < max_row.len() && max_row[k2] == (q, b);
        assert(min_row[k1].1 <= (s.len() - l) * c.max_cost() && max_row[k2].1 <= (s.len() - l) * c.max_cost());
    }
    assert forall|q: int| #[trigger] co_reaches(c, s, avoid, l, q) implies exists|k: int| 0 <= k < comb.len() && comb[k].0 == q by {
        let k1 = choose|k1: int| 0 <= k1 < min_row.len() && min_row[k1].0 == q;
        let k2 = choose|k2: int| 0 <= k2 < max_row.len() && max_row[k2].0 == q;
        let (q1, a) = min_row[k1];
        let (q2, b) = max_row[k2];
        assert(min_row.contains((q1, a)) && max_row.contains((q1, b)));
        assert(comb.contains((q1, a, b)));
        let k = choose|k: int| 0 <= k < comb.len() && comb[k] == (q1, a, b);
    }
}

/// The symbols a row keeps are symbols of the row.
proof fn lemma_row_kept(keep: spec_fn(int, usize) -> bool, i: int, row: Seq<usize>, x: usize)
    ensures
        row_kept(keep, i, row).contains(x) <==> row.contains(x) && keep(i, x),
    decreases row.len(),
{
    if row.len() > 0 {
        if row.contains(x) && keep(i, x) && x != row.last() {
            let k = choose|k: int| 0 <= k < row.len() && row[k] == x;
            assert(row.drop_last()[k] == x);
        }
        lemma_row_kept(keep, i, row.drop_last(), x);
        let rest = row_kept(keep, i, row.drop_last());
        lemma_push_contains(rest, row.last(), x);
        if rest.contains(x) {
            let k = choose|k: int| 0 <= k < row.drop_last().len() && row.drop_last()[k] == x;
            assert(row[k] == x);
        }
        if x == row.last() {
            assert(row[row.len() - 1] == x);
        }
    }
}

/// The best total cost of the words, from a correct last forward row.
pub proof fn lemma_full_costs(c: Cdfa, s: Seq<Seq<usize>>, avoid: bool, bound: Bound, row: Seq<(u32, u32)>, r: int)
    requires
        c.wf(),
        symbols_valid(c, s),
        fwd_row_ok(c, s, avoid, bound, s.len(), row),
    ensures
        row.len() == 0 <==> !exists|x: int| #[trigger] full_costs(c, s, avoid).contains(x),
        row.len() > 0 && (exists|k: int| 0 <= k < row.len() && r == (#[trigger] row[k]).1)
            && (forall|k: int| 0 <= k < row.len() ==> no_worse(bound, r, (#[trigger] row[k]).1 as int))
            ==> is_best(bound, full_costs(c, s, avoid), r),
{
    if row.len() > 0 {
        assert(reaches(c, s, avoid, s.len(), row[0].0 as int));
        assert(is_best(bound, fwd_costs(c, s, avoid, s.len(), row[0].0 as int), row[0].1 as int));
        assert(full_costs(c, s, avoid).contains(row[0].1 as int));
    }
    if exists|x: int| #[trigger] full_costs(c, s, avoid).contains(x) {
        let x = choose|x: int| #[trigger] full_costs(c, s, avoid).contains(x);
        let q = choose|q: int| #[trigger] fwd_costs(c, s, avoid, s.len(), q).contains(x);
        lemma_fwd_bounded(c, s, avoid, s.len(), q, x);
        let k = choose|k: int| 0 <= k < row.len() && row[k].0 == q;
    }
    if row.len() > 0 && (exists|k: int| 0 <= k < row.len() && r == (#[trigger] row[k]).1)
        && (forall|k: int| 0 <= k < row.len() ==> no_worse(bound, r, (#[trigger] row[k]).1 as int)) {
        let k = choose|k: int| 0 <= k < row.len() && r == (#[trigger] row[k]).1;
        assert(is_best(bound, fwd_costs(c, s, avoid, s.len(), row[k].0 as int), row[k].1 as int));
        assert(full_costs(c, s, avoid).contains(r));
        assert forall|x: int| #[trigger] full_costs(c, s, avoid).contains(x) implies no_worse(bound, r, x) by {
            let q = choose|q: int| #[trigger] fwd_costs(c, s, avoid, s.len(), q).contains(x);
            lemma_fwd_bounded(c, s, avoid, s.len(), q, x);
            let k2 = choose|k2: int| 0 <= k2 < row.len() && row[k2].0 == q;
            assert(is_best(bound, fwd_costs(c, s, avoid, s.len(), q), row[k2].1 as int));
            assert(no_worse(bound, r, row[k2].1 as int));
        }
    }
}

// ------------------------------------------------------------ propagation

/// A symbol removed from a variable's domain, with its reason.
#[derive(Clone, Debug)]
pub struct SymbolRemoval {
    pub variable: usize,
    pub value: i32,
    pub reason: Vec<Predicate>,
}

/// What one propagation deduces: the removals, in order, then bounds for the
/// count, explained by `count_reason`.
#[derive(Clone, Debug)]
pub struct CdfaPropagation {
    pub removals: Vec<SymbolRemoval>,
    pub count_lower_bound: i32,
    pub count_upper_bound: i32,
    pub count_reason: Vec<Predicate>,
}

/// The `(variable, value)` pair of a removal.
pub open spec fn removal_pair(r: SymbolRemoval) -> (usize, Letter) {
    (r.variable, r.value)
}

/// The values `1..=num_inputs` that a variable's domain no longer holds, as predicates.
pub open spec fn base_set(domains: Seq<Vec<Letter>>, num_inputs: nat) -> Set<Predicate> {
    Set::new(|pr: Predicate| exists|i: usize, v: i32| pr == Predicate::SequenceNotEqual(i, v)
        && i < domains.len() && 1 <= v <= num_inputs && !(#[trigger] domains[i as int]@.contains(v)))
}

/// The symbols each variable keeps.
pub open spec fn remaining(c: Cdfa, s: Seq<Seq<usize>>, lb: i32, ub: i32) -> Seq<Seq<usize>> {
    Seq::new(s.len(), |i: int| row_kept(|j: int, l: usize| supported(c, s, lb, ub, j, l), i, s[i]))
}

/// The total costs of the words that fit the symbols.
pub open spec fn full_costs(c: Cdfa, s: Seq<Seq<usize>>, avoid: bool) -> Set<int> {
    Set::new(|x: int| exists|q: int| #[trigger] fwd_costs(c, s, avoid, s.len(), q).contains(x))
}

/// The two predicate lists, one after the other.
fn concat_predicates(a: &Vec<Predicate>, b: &Vec<Predicate>) -> (r: Vec<Predicate>)
    ensures
        r@ == a@ + b@,
        forall|pr: Predicate| #[trigger] r@.contains(pr) <==> a@.contains(pr) || b@.contains(pr),
{
    let mut r: Vec<Predicate> = Vec::new();
    let mut i: usize = 0;
    while i < a.len()
        invariant
            i <= a@.len(),
            r@ == a@.take(i as int),
        decreases a@.len() - i,
    {
        r.push(a[i]);
        i = i + 1;
        assert(r@ == a@.take(i as int));
    }
    let mut j: usize = 0;
    while j < b.len()
        invariant
            a@.len() == i,
            j <= b@.len(),
            r@ == a@ + b@.take(j as int),
        decreases b@.len() - j,
    {
        r.push(b[j]);
        j = j + 1;
        assert(r@ == a@ + b@.take(j as int));
    }
    proof {
        assert(a@.take(a@.len() as int) == a@);
        assert(b@.take(b@.len() as int) == b@);
        assert forall|pr: Predicate| #[trigger] r@.contains(pr) <==> a@.contains(pr) || b@.contains(pr) by {
            if r@.contains(pr) {
                let k = choose|k: int| 0 <= k < r@.len() && r@[k] == pr;
                if k < a@.len() {
                    assert(a@[k] == pr);
                } else {
                    assert(b@[k - a@.len()] == pr);
                }
            }
            if a@.contains(pr) {
                let k = choose|k: int| 0 <= k < a@.len() && a@[k] == pr;
                assert(r@[k] == pr);
            }
            if b@.contains(pr) {
                let k = choose|k: int| 0 <= k < b@.len() && b@[k] == pr;
                assert(r@[a@.len() + k] == pr);
            }
        }
    }
    r
}

/// The symbols of each domain: value `v` is symbol `v - 1`.
fn symbols_from_domains(domains: &Vec<Vec<Letter>>, num_inputs: u32) -> (s: Vec<Vec<usize>>)
    requires
        forall|i: int, k: int| 0 <= i < domains@.len() && 0 <= k < domains@[i]@.len() ==>
            1 <= #[trigger] domains@[i]@[k] <= num_inputs,
    ensures
        views(s@) == symbols_of(domains@),
{
    let mut s: Vec<Vec<usize>> = Vec::new();
    let mut i: usize = 0;
    while i < domains.len()
        invariant
            forall|i: int, k: int| 0 <= i < domains@.len() && 0 <= k < domains@[i]@.len() ==>
                1 <= #[trigger] domains@[i]@[k] <= num_inputs,
            i <= domains@.len(),
            s@.len() == i,
            forall|j: int| 0 <= j < i ==> (#[trigger] s@[j])@ == domains@[j]@.map_values(|v: Letter| (v - 1) as usize),
        decreases domains@.len() - i,
    {
        let row = &domains[i];
        let mut out: Vec<usize> = Vec::new();
        let mut k: usize = 0;
        while k < row.len()
            invariant
                forall|i: int, k: int| 0 <= i < domains@.len() && 0 <= k < domains@[i]@.len() ==>
                    1 <= #[trigger] domains@[i]@[k] <= num_inputs,
                i < domains@.len(),
                row@ == domains@[i as int]@,
                k <= row@.len(),
                out@ == row@.take(k as int).map_values(|v: Letter| (v - 1) as usize),
            decreases row@.len() - k,
        {
            assert(1 <= domains@[i as int]@[k as int]);
            out.push((row[k] - 1) as usize);
            k = k + 1;
            assert(out@ == row@.take(k as int).map_values(|v: Letter| (v - 1) as usize));
        }
        assert(row@.take(row@.len() as int) == row@);
        s.push(out);
        i = i + 1;
    }
    assert(views(s@) == symbols_of(domains@));
    s
}

/// The propagator of the `regular` constraint with costs.
#[derive(Clone, Debug)]
pub struct RegularCdfaPropagator<Var, CVar> {
    sequence: Vec<Var>,
    count: CVar,
    pub c_dfa: Cdfa,
}

impl<Var, CVar> RegularCdfaPropagator<Var, CVar> {
    /// The automaton is well formed, a word's total cost fits the count, and a
    /// symbol's value fits an `i32`.
    pub closed spec fn wf(self) -> bool {
        &&& self.c_dfa.wf()
        &&& costs_fit(self.c_dfa, self.sequence@.len() as nat)
        &&& self.c_dfa.inputs() < i32::MAX
    }

    /// The number of variables of the sequence.
    pub closed spec fn len(self) -> nat {
        self.sequence@.len()
    }

    /// The counting DFA.
    pub closed spec fn automaton(self) -> Cdfa {
        self.c_dfa
    }

    /// What a well-formed propagator holds: a well-formed automaton whose word
    /// totals fit the count, and whose symbols' values fit an `i32`.
    pub proof fn lemma_wf(self)
        requires
            self.wf(),
        ensures
            self.automaton().wf(),
            costs_fit(self.automaton(), self.len()),
            self.automaton().inputs() < i32::MAX,
    {
    }

    /// The propagator's name, "RegularCdfaPropagator".
    pub fn name(&self) -> (name: &'static str)
        ensures
            name@ == "RegularCdfaPropagator"@,
    {
        "RegularCdfaPropagator"
    }

    /// The least cost in the row of the forward table after all variables, or `u32::MAX` when it
    /// is empty, as an `i32`.
    pub fn propagate_lb_count(&self, min_qcf_table: &Vec<Vec<(u32, u32)>>) -> (lower: i32)
        requires
            min_qcf_table@.len() > self.len(),
        ensures
            min_qcf_table@[self.len() as int]@.len() == 0 ==> lower == u32::MAX as i32,
            min_qcf_table@[self.len() as int]@.len() > 0 ==> exists|k: int|
                0 <= k < min_qcf_table@[self.len() as int]@.len()
                    && lower == (#[trigger] min_qcf_table@[self.len() as int]@[k]).1 as i32
                    && forall|j: int| 0 <= j < min_qcf_table@[self.len() as int]@.len() ==>
                        min_qcf_table@[self.len() as int]@[k].1 <= (#[trigger] min_qcf_table@[self.len() as int]@[j]).1,
    {
        let n = self.sequence.len();
        let row = &min_qcf_table[n];
        let mut min_c: u32 = u32::MAX;
        let mut k: usize = 0;
        while k < row.len()
            invariant
                k <= row@.len(),
                k == 0 ==> min_c == u32::MAX,
                k > 0 ==> exists|j: int| 0 <= j < k && min_c == (#[trigger] row@[j]).1,
                forall|j: int| 0 <= j < k ==> min_c <= (#[trigger] row@[j]).1,
            decreases row@.len() - k,
        {
            let (_, c) = row[k];
            if c < min_c {
                min_c = c;
            }
            k = k + 1;
        }
        min_c as i32
    }

    /// The greatest cost in the row of the forward table after all variables, or 0 when it is
    /// empty, as an `i32`.
    pub fn propagate_ub_count(&self, max_qcf_table: &Vec<Vec<(u32, u32)>>) -> (upper: i32)
        requires
            max_qcf_table@.len() > self.len(),
        ensures
            max_qcf_table@[self.len() as int]@.len() == 0 ==> upper == 0,
            max_qcf_table@[self.len() as int]@.len() > 0 ==> exists|k: int|
                0 <= k < max_qcf_table@[self.len() as int]@.len()
                    && upper == (#[trigger] max_qcf_table@[self.len() as int]@[k]).1 as i32
                    && forall|j: int| 0 <= j < max_qcf_table@[self.len() as int]@.len() ==>
                        max_qcf_table@[self.len() as int]@[k].1 >= (#[trigger] max_qcf_table@[self.len() as int]@[j]).1,
    {
        let n = self.sequence.len();
        let row = &max_qcf_table[n];
        let mut max_c: u32 = u32::MIN;
        let mut k: usize = 0;
        while k < row.len()
            invariant
                k <= row@.len(),
                k == 0 ==> max_c == 0,
                k > 0 ==> exists|j: int| 0 <= j < k && max_c == (#[trigger] row@[j]).1,
                forall|j: int| 0 <= j < k ==> max_c >= (#[trigger] row@[j]).1,
            decreases row@.len() - k,
        {
            let (_, c) = row[k];
            if c > max_c {
                max_c = c;
            }
            k = k + 1;
        }
        max_c as i32
    }

    /// Given each variable's domain (values `1..=num_inputs`) and the count's
    /// bounds and holes: the symbols that no word within the count's bounds can
    /// use are removed, in order, each with its reason; then the count's bounds
    /// become the least and the greatest total cost of the words left.
    #[verifier::spinoff_prover]
    pub fn propagate_from_scratch(
        &self,
        domains: &Vec<Vec<Letter>>,
        count_lb: i32,
        count_ub: i32,
        count_holes: &Vec<i32>,
    ) -> (result: CdfaPropagation)
        requires
            self.wf(),
            domains@.len() == self.len(),
            forall|i: int, k: int| 0 <= i < domains@.len() && 0 <= k < domains@[i]@.len() ==>
                1 <= #[trigger] domains@[i]@[k] <= self.automaton().inputs(),
        ensures
            result.removals@.map_values(|r: SymbolRemoval| removal_pair(r)) == prunes(
                |i: int, v: Letter| supported(self.automaton(), symbols_of(domains@), count_lb, count_ub, i, (v - 1) as usize),
                domains@,
                self.len() as int,
            ),
            forall|k: int, pr: Predicate| 0 <= k < result.removals@.len() ==>
                (#[trigger] result.removals@[k].reason@.contains(pr) <==> base_set(domains@, self.automaton().inputs()).contains(pr)
                    || impossible_set(self.automaton(), symbols_of(domains@), count_lb, count_ub, count_holes@,
                        result.removals@[k].variable as int, (result.removals@[k].value - 1) as usize).contains(pr)),
            forall|pr: Predicate| #[trigger] result.count_reason@.contains(pr) <==> base_set(domains@, self.automaton().inputs()).contains(pr)
                || exists|k: int| 0 <= k < result.removals@.len()
                    && pr == Predicate::SequenceNotEqual((#[trigger] result.removals@[k]).variable, result.removals@[k].value),
            (exists|x: int| #[trigger] full_costs(self.automaton(), remaining(self.automaton(), symbols_of(domains@), count_lb, count_ub), false).contains(x)) ==> {
                &&& is_best(Bound::Min, full_costs(self.automaton(), remaining(self.automaton(), symbols_of(domains@), count_lb, count_ub), false),
                    result.count_lower_bound as int)
                &&& is_best(Bound::Max, full_costs(self.automaton(), remaining(self.automaton(), symbols_of(domains@), count_lb, count_ub), false),
                    result.count_upper_bound as int)
            },
            !(exists|x: int| #[trigger] full_costs(self.automaton(), remaining(self.automaton(), symbols_of(domains@), count_lb, count_ub), false).contains(x)) ==>
                result.count_lower_bound == u32::MAX as i32 && result.count_upper_bound == 0,
            0 <= count_lb && 0 <= count_ub ==> forall|i: int, v: Letter| #![trigger domains@[i]@.contains(v)]
                0 <= i < self.len() && domains@[i]@.contains(v)
                && ((forall|w: Seq<Letter>| #[trigger] assigns_within(domains@, w) && w[i] == v ==> total_of(self.automaton(), w) > count_ub)
                    || (forall|w: Seq<Letter>| #[trigger] assigns_within(domains@, w) && w[i] == v ==> total_of(self.automaton(), w) < count_lb))
                ==> result.removals@.map_values(|r: SymbolRemoval| removal_pair(r)).contains((i as usize, v)),
    {
        let ghost c = self.c_dfa;
        let base_explanation = self.get_removed_symbol_predicates(domains);
        let n = self.sequence.len();
        let sequence_symbols = symbols_from_domains(domains, self.c_dfa.num_inputs());
        let ghost s = views(sequence_symbols@);
        proof {
            c.lemma_wf();
            assert forall|i: int, k: int| 0 <= i < s.len() && 0 <= k < s[i].len() implies #[trigger] s[i][k] < c.inputs() by {
                assert(s[i] == symbols_of(domains@)[i]);
                assert(1 <= domains@[i]@[k] <= c.inputs());
            }
            assert(symbols_valid(c, s));
            assert(s.len() == sequence_symbols@.len());
            assert(symbols_of(domains@).len() == domains@.len());
            assert(sequence_symbols@.len() == n);
        }
        let mut min_qcf_table: Vec<Vec<(u32, u32)>> = Vec::new();
        let mut min_qcb_table: Vec<Vec<(u32, u32)>> = Vec::new();
        let mut max_qcf_table: Vec<Vec<(u32, u32)>> = Vec::new();
        let mut max_qcb_table: Vec<Vec<(u32, u32)>> = Vec::new();
        compute_qcb_and_qcf(&sequence_symbols, &self.c_dfa, &mut min_qcb_table, &mut min_qcf_table, Bound::Min, 0);
        compute_qcb_and_qcf(&sequence_symbols, &self.c_dfa, &mut max_qcb_table, &mut max_qcf_table, Bound::Max, 0);
        let mut removed_symbols: Vec<Predicate> = Vec::new();
        let mut removals: Vec<SymbolRemoval> = Vec::new();
        let mut kept_symbols: Vec<Vec<usize>> = Vec::new();
        let lb = count_lb;
        let ub = count_ub;
        let ghost keep_v = |i: int, v: Letter| supported(c, s, lb, ub, i, (v - 1) as usize);
        let ghost keep_s = |j: int, l: usize| supported(c, s, lb, ub, j, l);
        let ghost base = base_set(domains@, c.inputs());
        let mut i: usize = 0;
        while i < n
            invariant
                self.wf(),
                c == self.c_dfa,
                n == self.len(),
                n == domains@.len(),
                forall|i: int, k: int| 0 <= i < domains@.len() && 0 <= k < domains@[i]@.len() ==>
                    1 <= #[trigger] domains@[i]@[k] <= c.inputs(),
                s == views(sequence_symbols@),
                s == symbols_of(domains@),
                symbols_valid(c, s),
                lb == count_lb,
                ub == count_ub,
                keep_v == (|i: int, v: Letter| supported(c, s, lb, ub, i, (v - 1) as usize)),
                keep_s == (|j: int, l: usize| supported(c, s, lb, ub, j, l)),
                base == base_set(domains@, c.inputs()),
                forall|pr: Predicate| #[trigger] base_explanation@.contains(pr) <==> base.contains(pr),
                min_qcf_table@.len() == n + 1,
                max_qcf_table@.len() == n + 1,
                min_qcb_table@.len() == n + 1,
                max_qcb_table@.len() == n + 1,
                forall|k: int| 0 <= k < n + 1 ==> fwd_row_ok(c, s, false, Bound::Min, k as nat, #[trigger] min_qcf_table@[k]@),
                forall|k: int| 0 <= k < n + 1 ==> fwd_row_ok(c, s, false, Bound::Max, k as nat, #[trigger] max_qcf_table@[k]@),
                forall|k: int| 0 <= k < n + 1 ==> bwd_row_ok(c, s, false, Bound::Min, (n - k) as nat, #[trigger] min_qcb_table@[k]@),
                forall|k: int| 0 <= k < n + 1 ==> bwd_row_ok(c, s, false, Bound::Max, (n - k) as nat, #[trigger] max_qcb_table@[k]@),
                i <= n,
                removals@.map_values(|r: SymbolRemoval| removal_pair(r)) == prunes(keep_v, domains@, i as int),
                removed_symbols@ == removals@.map_values(|r: SymbolRemoval| Predicate::SequenceNotEqual(r.variable, r.value)),
                forall|k: int, pr: Predicate| 0 <= k < removals@.len() ==>
                    (#[trigger] removals@[k].reason@.contains(pr) <==> base.contains(pr)
                        || impossible_set(c, s, lb, ub, count_holes@, removals@[k].variable as int,
                            (removals@[k].value - 1) as usize).contains(pr)),
                kept_symbols@.len() == i,
                forall|j: int| 0 <= j < i ==> (#[trigger] kept_symbols@[j])@ == row_kept(keep_s, j, s[j]),
            decreases n - i,
        {
            let qcf = combine_table(&min_qcf_table[i], &max_qcf_table[i]);
            let qcb = combine_table(&min_qcb_table[n - i - 1], &max_qcb_table[n - i - 1]);
            let ghost cap: int = (n - 1) * c.max_cost();
            proof {
                lemma_combined_fwd(c, s, false, i as nat, min_qcf_table@[i as int]@, max_qcf_table@[i as int]@, qcf@);
                lemma_combined_bwd(c, s, false, (i + 1) as nat, min_qcb_table@[n - i - 1]@, max_qcb_table@[n - i - 1]@, qcb@);
                assert(i * c.max_cost() + (n - (i + 1)) * c.max_cost() == cap) by (nonlinear_arith)
                    requires
                        i < n,
                        cap == (n - 1) * c.max_cost(),
                ;
                assert(cap + c.max_cost() == n * c.max_cost()) by (nonlinear_arith)
                    requires
                        n >= 1,
                        cap == (n - 1) * c.max_cost(),
                ;
            }
            let row = &domains[i];
            let mut kept: Vec<usize> = Vec::new();
            let ghost base_pairs = removals@.map_values(|r: SymbolRemoval| removal_pair(r));
            let mut t: usize = 0;
            while t < row.len()
                invariant
                    self.wf(),
                    c == self.c_dfa,
                    n == self.len(),
                    n == domains@.len(),
                    forall|i: int, k: int| 0 <= i < domains@.len() && 0 <= k < domains@[i]@.len() ==>
                        1 <= #[trigger] domains@[i]@[k] <= c.inputs(),
                    i < n,
                    row@ == domains@[i as int]@,
                    s == symbols_of(domains@),
                    symbols_valid(c, s),
                    lb == count_lb,
                    ub == count_ub,
                    keep_v == (|i: int, v: Letter| supported(c, s, lb, ub, i, (v - 1) as usize)),
                    keep_s == (|j: int, l: usize| supported(c, s, lb, ub, j, l)),
                    base == base_set(domains@, c.inputs()),
                    forall|pr: Predicate| #[trigger] base_explanation@.contains(pr) <==> base.contains(pr),
                    fwd_pairs_ok(c, s, false, i as nat, qcf@),
                    bwd_pairs_ok(c, s, false, (i + 1) as nat, qcb@),
                    cap + c.max_cost() <= i32::MAX,
                    forall|r: int| 0 <= r < qcf@.len() ==> (#[trigger] qcf@[r]).0 < c.states(),
                    forall|r: int, q: int| 0 <= r < qcf@.len() && 0 <= q < qcb@.len() ==>
                        (#[trigger] qcf@[r]).1 + (#[trigger] qcb@[q]).1 <= cap && qcf@[r].2 + qcb@[q].2 <= cap,
                    t <= row@.len(),
                    base_pairs == prunes(keep_v, domains@, i as int),
                    removals@.map_values(|r: SymbolRemoval| removal_pair(r)) == base_pairs + row_prunes(keep_v, i as int, row@.take(t as int)),
                    removed_symbols@ == removals@.map_values(|r: SymbolRemoval| Predicate::SequenceNotEqual(r.variable, r.value)),
                    forall|k: int, pr: Predicate| 0 <= k < removals@.len() ==>
                        (#[trigger] removals@[k].reason@.contains(pr) <==> base.contains(pr)
                            || impossible_set(c, s, lb, ub, count_holes@, removals@[k].variable as int,
                                (removals@[k].value - 1) as usize).contains(pr)),
                    kept@ == row_kept(keep_s, i as int, s[i as int].take(t as int)),
                decreases row@.len() - t,
            {
                let v = row[t];
                proof {
                    assert(1 <= domains@[i as int]@[t as int] <= c.inputs());
                }
                let l = (v - 1) as usize;
                proof {
                    assert(s[i as int][t as int] == l);
                    assert(s[i as int].take(t + 1).drop_last() == s[i as int].take(t as int));
                    assert(row@.take(t + 1).drop_last() == row@.take(t as int));
                    assert forall|r: int| 0 <= r < qcf@.len() implies (#[trigger] qcf@[r]).0 < c.states() by {}
                }
                let (is_supported, impossible) = symbol_check(&self.c_dfa, &qcf, &qcb, l, lb, ub, count_holes, Ghost(cap));
                proof {
                    lemma_check_bridge(c, s, i as nat, qcf@, qcb@, l, lb, ub);
                    assert(keep_v(i as int, v) == supported(c, s, lb, ub, i as int, l));
                }
                if is_supported {
                    kept.push(l);
                    proof {
                        assert(row_prunes(keep_v, i as int, row@.take(t + 1)) == row_prunes(keep_v, i as int, row@.take(t as int)));
                    }
                } else {
                    let reason = concat_predicates(&base_explanation, &impossible);
                    let value = l as i32 + 1;
                    let ghost before = removals@;
                    proof {
                        assert(value == v);
                        assert forall|pr: Predicate| #[trigger] reason@.contains(pr) <==> base.contains(pr)
                            || impossible_set(c, s, lb, ub, count_holes@, i as int, (value - 1) as usize).contains(pr) by {
                            if impossible@.contains(pr) && pr != Predicate::CountAtLeast(lb) && pr != Predicate::CountAtMost(ub) {
                                let (h, r, q) = choose|h: i32, r: int, q: int| #![trigger count_holes@.contains(h), qcf@[r], qcb@[q]]
                                    pr == Predicate::CountNotEqual(h) && count_holes@.contains(h) && 0 <= r < qcf@.len() && 0 <= q < qcb@.len()
                                    && qcb@[q].0 == c.next(qcf@[r].0 as int, l as int)
                                    && qcf@[r].1 + c.cost(qcf@[r].0 as int, l as int) + qcb@[q].1 <= h as u32
                                    && h as u32 <= qcf@[r].2 + c.cost(qcf@[r].0 as int, l as int) + qcb@[q].2;
                                assert(hole_listed(c, qcf@, qcb@, l, h));
                                assert(hole_through(c, s, i as int, l, h));
                            }
                            if impossible_set(c, s, lb, ub, count_holes@, i as int, l).contains(pr)
                                && pr != Predicate::CountAtLeast(lb) && pr != Predicate::CountAtMost(ub) {
                                let h = choose|h: i32| pr == Predicate::CountNotEqual(h) && #[trigger] count_holes@.contains(h)
                                    && hole_through(c, s, i as int, l, h);
                                assert(hole_listed(c, qcf@, qcb@, l, h));
                                let (r, q) = choose|r: int, q: int| #![trigger qcf@[r], qcb@[q]]
                                    0 <= r < qcf@.len() && 0 <= q < qcb@.len() && qcb@[q].0 == c.next(qcf@[r].0 as int, l as int)
                                    && qcf@[r].1 + c.cost(qcf@[r].0 as int, l as int) + qcb@[q].1 <= h as u32
                                    && h as u32 <= qcf@[r].2 + c.cost(qcf@[r].0 as int, l as int) + qcb@[q].2;
                                assert(impossible@.contains(pr));
                            }
                        }
                    }
                    removals.push(SymbolRemoval { variable: i, value, reason });
                    removed_symbols.push(Predicate::SequenceNotEqual(i, value));
                    proof {
                        assert(removals@.map_values(|r: SymbolRemoval| removal_pair(r))
                            == before.map_values(|r: SymbolRemoval| removal_pair(r)).push((i, v)));
                        assert(removed_symbols@ == removals@.map_values(|r: SymbolRemoval| Predicate::SequenceNotEqual(r.variable, r.value)));
                        assert forall|k: int, pr: Predicate| 0 <= k < removals@.len() implies
                            (#[trigger] removals@[k].reason@.contains(pr) <==> base.contains(pr)
                                || impossible_set(c, s, lb, ub, count_holes@, removals@[k].variable as int,
                                    (removals@[k].value - 1) as usize).contains(pr)) by {
                            if k < before.len() {
                                assert(removals@[k] == before[k]);
                            }
                        }
                    }
                }
                t = t + 1;
            }
            proof {
                assert(row@.take(row@.len() as int) == row@);
                assert(s[i as int].take(s[i as int].len() as int) == s[i as int]);
                assert(prunes(keep_v, domains@, i + 1) == prunes(keep_v, domains@, i as int) + row_prunes(keep_v, i as int, domains@[i as int]@));
            }
            kept_symbols.push(kept);
            i = i + 1;
        }
        let reason = concat_predicates(&base_explanation, &removed_symbols);
        let ghost rem = remaining(c, s, lb, ub);
        proof {
            assert(keep_s == (|j: int, l: usize| supported(c, s, lb, ub, j, l)));
            assert(views(kept_symbols@) == rem);
            assert forall|j: int, k: int| 0 <= j < rem.len() && 0 <= k < rem[j].len() implies #[trigger] rem[j][k] < c.inputs() by {
                lemma_row_kept(keep_s, j, s[j], rem[j][k]);
                assert(rem[j].contains(rem[j][k]));
                let m = choose|m: int| 0 <= m < s[j].len() && s[j][m] == rem[j][k];
            }
            assert(symbols_valid(c, rem));
            assert forall|pr: Predicate| #[trigger] reason@.contains(pr) <==> base.contains(pr)
                || exists|k: int| 0 <= k < removals@.len()
                    && pr == Predicate::SequenceNotEqual((#[trigger] removals@[k]).variable, removals@[k].value) by {
                if removed_symbols@.contains(pr) {
                    let k = choose|k: int| 0 <= k < removed_symbols@.len() && removed_symbols@[k] == pr;
                    assert(pr == Predicate::SequenceNotEqual(removals@[k].variable, removals@[k].value));
                }
                if exists|k: int| 0 <= k < removals@.len()
                    && pr == Predicate::SequenceNotEqual((#[trigger] removals@[k]).variable, removals@[k].value) {
                    let k = choose|k: int| 0 <= k < removals@.len()
                        && pr == Predicate::SequenceNotEqual((#[trigger] removals@[k]).variable, removals@[k].value);
                    assert(removed_symbols@[k] == pr);
                }
            }
        }
        min_qcf_table.clear();
        max_qcf_table.clear();
        compute_qcf(&kept_symbols, &self.c_dfa, &mut min_qcf_table, Bound::Min, n);
        compute_qcf(&kept_symbols, &self.c_dfa, &mut max_qcf_table, Bound::Max, n);
        proof {
            assert(fwd_row_ok(c, rem, false, Bound::Min, n as nat, min_qcf_table@[n as int]@));
            assert(fwd_row_ok(c, rem, false, Bound::Max, n as nat, max_qcf_table@[n as int]@));
            lemma_fwd_row_pairs(c, rem, false, Bound::Min, n as nat, min_qcf_table@[n as int]@);
            lemma_fwd_row_pairs(c, rem, false, Bound::Max, n as nat, max_qcf_table@[n as int]@);
            assert(n * c.max_cost() <= i32::MAX);
        }
        let lower = self.propagate_lb_count(&min_qcf_table);
        let upper = self.propagate_ub_count(&max_qcf_table);
        proof {
            let lo_row = min_qcf_table@[n as int]@;
            let hi_row = max_qcf_table@[n as int]@;
            if lo_row.len() > 0 {
                let k = choose|k: int| 0 <= k < lo_row.len() && lower == (#[trigger] lo_row[k]).1 as i32
                    && forall|j: int| 0 <= j < lo_row.len() ==> lo_row[k].1 <= (#[trigger] lo_row[j]).1;
                assert(lo_row[k].1 <= n * c.max_cost());
                assert(lower == lo_row[k].1);
            }
            if hi_row.len() > 0 {
                let k = choose|k: int| 0 <= k < hi_row.len() && upper == (#[trigger] hi_row[k]).1 as i32
                    && forall|j: int| 0 <= j < hi_row.len() ==> hi_row[k].1 >= (#[trigger] hi_row[j]).1;
                assert(hi_row[k].1 <= n * c.max_cost());
                assert(upper == hi_row[k].1);
            }
            lemma_full_costs(c, rem, false, Bound::Min, lo_row, lower as int);
            lemma_full_costs(c, rem, false, Bound::Max, hi_row, upper as int);
        }
        assert(forall|pr: Predicate| #[trigger] reason@.contains(pr) <==> base_set(domains@, self.automaton().inputs()).contains(pr)
            || exists|k: int| 0 <= k < removals@.len()
                && pr == Predicate::SequenceNotEqual((#[trigger] removals@[k]).variable, removals@[k].value));
        proof {
            if 0 <= count_lb && 0 <= count_ub {
                assert forall|i: int, v: Letter| #![trigger domains@[i]@.contains(v)]
                    0 <= i < self.len() && domains@[i]@.contains(v)
                    && ((forall|w: Seq<Letter>| #[trigger] assigns_within(domains@, w) && w[i] == v ==> total_of(self.automaton(), w) > count_ub)
                        || (forall|w: Seq<Letter>| #[trigger] assigns_within(domains@, w) && w[i] == v ==> total_of(self.automaton(), w) < count_lb))
                    implies removals@.map_values(|r: SymbolRemoval| removal_pair(r)).contains((i as usize, v)) by {
                    self.lemma_propagation_prunes_out_of_bounds(domains@, count_lb, count_ub, i, v);
                }
            }
        }
        CdfaPropagation { removals, count_lower_bound: lower, count_upper_bound: upper, count_reason: reason }
    }

    /// The predicates "variable `i` is not `l`" for each value `l` in
    /// `1..=num_inputs` that the `i`-th domain no longer holds.
    pub fn get_removed_symbol_predicates(&self, domains: &Vec<Vec<Letter>>) -> (preds: Vec<Predicate>)
        requires
            self.wf(),
            domains@.len() == self.len(),
        ensures
            preds@ == removed_upto(domains@, self.automaton().inputs(), self.len() as int),
            forall|pr: Predicate| #[trigger] preds@.contains(pr) <==> base_set(domains@, self.automaton().inputs()).contains(pr),
    {
        let num_inputs = self.c_dfa.num_inputs();
        let mut preds: Vec<Predicate> = Vec::new();
        let mut i: usize = 0;
        while i < self.sequence.len()
            invariant
                self.wf(),
                domains@.len() == self.len(),
                num_inputs == self.c_dfa.inputs(),
                i <= self.len(),
                preds@ == removed_upto(domains@, num_inputs as nat, i as int),
                forall|pr: Predicate| #[trigger] preds@.contains(pr) <==> exists|j: usize, v: i32|
                    pr == Predicate::SequenceNotEqual(j, v) && j < i && 1 <= v <= num_inputs
                        && !(#[trigger] domains@[j as int]@.contains(v)),
            decreases self.len() - i,
        {
            let mut vec: Vec<(usize, i32)> = Vec::with_capacity(repr_to_usize(num_inputs));
            let mut l: u32 = 1;
            while l < num_inputs + 1
                invariant
                    self.wf(),
                    num_inputs == self.c_dfa.inputs(),
                    i < domains@.len(),
                    1 <= l <= num_inputs + 1,
                    vec@ == missing_in(domains@[i as int]@, i, (l - 1) as nat),
                    forall|e: (usize, i32)| #[trigger] vec@.contains(e) <==> e.0 == i && 1 <= e.1 < l
                        && !domains@[i as int]@.contains(e.1),
                decreases num_inputs + 1 - l,
            {
                let ghost before = vec@;
                if !crate::layered_graph::contains_letter(&domains[i], l as i32) {
                    vec.push((i, l as i32));
                }
                assert(vec@ == missing_in(domains@[i as int]@, i, l as nat));
                proof {
                    assert forall|e: (usize, i32)| #[trigger] vec@.contains(e) <==> e.0 == i && 1 <= e.1 < l + 1
                        && !domains@[i as int]@.contains(e.1) by {
                        lemma_push_contains(before, (i, l as i32), e);
                    }
                }
                l = l + 1;
            }
            let ghost mid = preds@;
            let mut k: usize = 0;
            while k < vec.len()
                invariant
                    k <= vec@.len(),
                    preds@ == mid + vec@.take(k as int).map_values(|e: (usize, i32)| Predicate::SequenceNotEqual(e.0, e.1)),
                    forall|pr: Predicate| #[trigger] preds@.contains(pr) <==> mid.contains(pr)
                        || exists|e: (usize, i32)| #[trigger] vec@.take(k as int).contains(e)
                            && pr == Predicate::SequenceNotEqual(e.0, e.1),
                decreases vec@.len() - k,
            {
                let (j, v) = vec[k];
                let ghost m2 = preds@;
                preds.push(Predicate::SequenceNotEqual(j, v));
                proof {
                    assert(vec@.take(k + 1) == vec@.take(k as int).push((j, v)));
                    assert(vec@.take(k + 1).map_values(|e: (usize, i32)| Predicate::SequenceNotEqual(e.0, e.1))
                        == vec@.take(k as int).map_values(|e: (usize, i32)| Predicate::SequenceNotEqual(e.0, e.1))
                            .push(Predicate::SequenceNotEqual(j, v)));
                    assert forall|pr: Predicate| #[trigger] preds@.contains(pr) <==> mid.contains(pr)
                        || exists|e: (usize, i32)| #[trigger] vec@.take(k + 1).contains(e)
                            && pr == Predicate::SequenceNotEqual(e.0, e.1) by {
                        lemma_push_contains(m2, Predicate::SequenceNotEqual(j, v), pr);
                        lemma_push_contains(vec@.take(k as int), (j, v), (j, v));
                        assert(vec@.take(k + 1).contains((j, v)));
                        if m2.contains(pr) && !mid.contains(pr) {
                            let e = choose|e: (usize, i32)| #[trigger] vec@.take(k as int).contains(e)
                                && pr == Predicate::SequenceNotEqual(e.0, e.1);
                            lemma_push_contains(vec@.take(k as int), (j, v), e);
                            assert(vec@.take(k + 1).contains(e));
                        }
                        if exists|e: (usize, i32)| #[trigger] vec@.take(k + 1).contains(e)
                            && pr == Predicate::SequenceNotEqual(e.0, e.1) {
                            let e = choose|e: (usize, i32)| #[trigger] vec@.take(k + 1).contains(e)
                                && pr == Predicate::SequenceNotEqual(e.0, e.1);
                            lemma_push_contains(vec@.take(k as int), (j, v), e);
                        }
                    }
                }
                k = k + 1;
            }
            proof {
                assert(vec@.take(vec@.len() as int) == vec@);
                assert(preds@ == removed_upto(domains@, num_inputs as nat, i + 1));
                assert forall|pr: Predicate| #[trigger] preds@.contains(pr) <==> exists|j: usize, v: i32|
                    pr == Predicate::SequenceNotEqual(j, v) && j < i + 1 && 1 <= v <= num_inputs
                        && !(#[trigger] domains@[j as int]@.contains(v)) by {
                    if exists|j: usize, v: i32| pr == Predicate::SequenceNotEqual(j, v) && j < i + 1 && 1 <= v <= num_inputs
                        && !(#[trigger] domains@[j as int]@.contains(v)) {
                        let (j, v) = choose|j: usize, v: i32| pr == Predicate::SequenceNotEqual(j, v) && j < i + 1
                            && 1 <= v <= num_inputs && !(#[trigger] domains@[j as int]@.contains(v));
                        if j == i {
                            assert(vec@.contains((j, v)));
                        }
                    }
                }
            }
            i = i + 1;
        }
        preds
    }
}

/// The `(i, v)` pairs, by increasing `v` in `1..=k`, of the values `domain` lacks.
pub open spec fn missing_in(domain: Seq<Letter>, i: usize, k: nat) -> Seq<(usize, i32)>
    decreases k,
{
    if k == 0 {
        Seq::empty()
    } else {
        let rest = missing_in(domain, i, (k - 1) as nat);
        if domain.contains(k as i32) { rest } else { rest.push((i, k as i32)) }
    }
}

/// "Variable `i` is not `v`" for each value `v` in `1..=num_inputs` missing from
/// the domains of the first `m` variables, variable by variable, by increasing value.
pub open spec fn removed_upto(domains: Seq<Vec<Letter>>, num_inputs: nat, m: int) -> Seq<Predicate>
    decreases m,
{
    if m <= 0 {
        Seq::empty()
    } else {
        removed_upto(domains, num_inputs, m - 1) + missing_in(domains[m - 1]@, (m - 1) as usize, num_inputs)
            .map_values(|e: (usize, i32)| Predicate::SequenceNotEqual(e.0, e.1))
    }
}

/// The description of a `regular` constraint with costs, in the 1-based
/// convention: states `1..=num_states`, values `1..=num_inputs`,
/// `transition_matrix[q - 1][v - 1]` the state entered from `q` by value `v`
/// and `inc[q - 1][v - 1]` the cost it adds to `count`.
#[derive(Clone, Debug)]
pub struct RegularCdfaPropagatorConstructor<Var, CVar> {
    pub sequence: Vec<Var>,
    pub num_states: u32,
    pub num_inputs: u32,
    pub transition_matrix: Vec<Vec<i32>>,
    pub initial_state: i32,
    pub inc: Vec<Vec<i32>>,
    pub count: CVar,
}

impl<Var, CVar> RegularCdfaPropagatorConstructor<Var, CVar> {
    /// The description is well formed, a value fits an `i32` with one to spare,
    /// and a word's total cost fits the count.
    pub open spec fn valid(self) -> bool {
        &&& valid_description(self.num_states, self.num_inputs, self.transition_matrix@, self.initial_state, self.inc@)
        &&& self.num_inputs < i32::MAX
        &&& forall|q: int, l: int| 0 <= q < self.num_states && 0 <= l < self.num_inputs ==>
            self.sequence@.len() * #[trigger] self.inc@[q]@[l] <= i32::MAX
    }

    /// The counting DFA the description gives, its states and symbols shifted down by one.
    pub open spec fn describes(self, c: Cdfa) -> bool {
        &&& c.wf()
        &&& c.states() == self.num_states
        &&& c.inputs() == self.num_inputs
        &&& c.initial() == self.initial_state - 1
        &&& forall|q: int, l: int| 0 <= q < self.num_states && 0 <= l < self.num_inputs ==>
            #[trigger] c.next(q, l) == self.transition_matrix@[q]@[l] - 1
        &&& forall|q: int, l: int| 0 <= q < self.num_states && 0 <= l < self.num_inputs ==>
            #[trigger] c.cost(q, l) == self.inc@[q]@[l]
    }

    /// Builds the propagator from a valid description.
    pub fn create(self) -> (prop: RegularCdfaPropagator<Var, CVar>)
        requires
            self.valid(),
        ensures
            prop.wf(),
            prop.len() == self.sequence@.len(),
            self.describes(prop.automaton()),
    {
        let c_dfa = Cdfa::new(self.num_states, self.num_inputs, &self.transition_matrix, self.initial_state, &self.inc);
        proof {
            c_dfa.lemma_max_cost_attained();
            let n = self.sequence@.len();
            if c_dfa.max_cost() != 0 {
                let (q, l) = choose|q: int, l: int| 0 <= q < c_dfa.states() && 0 <= l < c_dfa.inputs()
                    && #[trigger] c_dfa.cost(q, l) == c_dfa.max_cost();
                assert(n * self.inc@[q]@[l] <= i32::MAX);
                assert(c_dfa.max_cost() == self.inc@[q]@[l]);
            } else {
                assert(n * c_dfa.max_cost() == 0) by (nonlinear_arith)
                    requires
                        c_dfa.max_cost() == 0,
                ;
            }
            assert(costs_fit(c_dfa, n as nat));
        }
        let RegularCdfaPropagatorConstructor { sequence, count, .. } = self;
        RegularCdfaPropagator { sequence, count, c_dfa }
    }
}

impl<Var: Clone, CVar: Clone> RegularCdfaPropagatorConstructor<Var, CVar> {
    /// The inference checker of this constraint.
    #[verifier::spinoff_prover]
    pub fn add_inference_checkers(&self) -> (checker: RegularCdfaChecker<Var, CVar>)
        requires
            self.valid(),
        ensures
            checker.wf(),
            checker.len() == self.sequence@.len(),
            forall|i: int| 0 <= i < self.sequence@.len() ==> cloned::<Var>(self.sequence@[i], #[trigger] checker.variables()[i]),
            cloned::<CVar>(self.count, checker.count_variable()),
            self.describes(checker.automaton()),
    {
        let c_dfa = Cdfa::new(self.num_states, self.num_inputs, &self.transition_matrix, self.initial_state, &self.inc);
        proof {
            c_dfa.lemma_max_cost_attained();
            let n = self.sequence@.len();
            if c_dfa.max_cost() != 0 {
                let (q, l) = choose|q: int, l: int| 0 <= q < c_dfa.states() && 0 <= l < c_dfa.inputs()
                    && #[trigger] c_dfa.cost(q, l) == c_dfa.max_cost();
                assert(n * self.inc@[q]@[l] <= i32::MAX);
                assert(c_dfa.max_cost() == self.inc@[q]@[l]);
            } else {
                assert(n * c_dfa.max_cost() == 0) by (nonlinear_arith)
                    requires
                        c_dfa.max_cost() == 0,
                ;
            }
            assert(costs_fit(c_dfa, n as nat));
        }
        let sequence = self.sequence.clone();
        assert(sequence@.len() == self.sequence@.len());
        let count = self.count.clone();
        let checker = RegularCdfaChecker::new(sequence, count, c_dfa);
        proof {
            checker.lemma_wf_of(c_dfa);
        }
        checker
    }
}

impl<Var, CVar> RegularCdfaPropagatorConstructor<Var, CVar> {
    /// A description describes one counting DFA only: the propagator that
    /// `create` builds and the checker that `add_inference_checkers` builds
    /// from it run the same automaton.
    pub proof fn lemma_one_automaton(self, prop: RegularCdfaPropagator<Var, CVar>, checker: RegularCdfaChecker<Var, CVar>)
        requires
            self.describes(prop.automaton()),
            self.describes(checker.automaton()),
        ensures
            prop.automaton().states() == checker.automaton().states(),
            prop.automaton().inputs() == checker.automaton().inputs(),
            prop.automaton().initial() == checker.automaton().initial(),
            forall|q: int, l: int| 0 <= q < prop.automaton().states() && 0 <= l < prop.automaton().inputs() ==>
                #[trigger] prop.automaton().next(q, l) == checker.automaton().next(q, l)
                && prop.automaton().cost(q, l) == checker.automaton().cost(q, l),
    {
    }
}

/// The `regular` constraint with costs over `sequence`, counted by `count`.
pub fn regular_cdfa<Var, CVar>(
    sequence: Vec<Var>,
    num_states: u32,
    num_inputs: u32,
    transition_matrix: Vec<Vec<i32>>,
    initial_state: i32,
    inc: Vec<Vec<i32>>,
    count: CVar,
) -> (constraint: RegularCdfaPropagatorConstructor<Var, CVar>)
    ensures
        constraint.sequence@ == sequence@,
        constraint.num_states == num_states,
        constraint.num_inputs == num_inputs,
        constraint.transition_matrix@ == transition_matrix@,
        constraint.initial_state == initial_state,
        constraint.inc@ == inc@,
        constraint.count == count,
{
    RegularCdfaPropagatorConstructor { sequence, num_states, num_inputs, transition_matrix, initial_state, inc, count }
}


// ------------------------------------------------------------------ laws

/// A nonempty set of costs within `lo..=hi` has a best cost for each bound.
pub proof fn lemma_best_exists(bound: Bound, s: Set<int>, lo: int, hi: int, x: int)
    requires
        s.contains(x),
        forall|y: int| #[trigger] s.contains(y) ==> lo <= y <= hi,
    ensures
        is_best(bound, s, best_of(bound, s)),
    decreases (if bound is Min { x - lo } else { hi - x }),
{
    if forall|y: int| #[trigger] s.contains(y) ==> no_worse(bound, x, y) {
        assert(is_best(bound, s, x));
    } else {
        let y = choose|y: int| #[trigger] s.contains(y) && !no_worse(bound, x, y);
        lemma_best_exists(bound, s, lo, hi, y);
    }
}

/// Every symbol of a word that fits the symbols and whose total cost lies
/// within the count's bounds is supported at its position.
pub proof fn lemma_solution_supported(c: Cdfa, s: Seq<Seq<usize>>, lb: i32, ub: i32, w: Seq<usize>, i: int)
    requires
        c.wf(),
        symbols_valid(c, s),
        w.len() == s.len(),
        word_within(s, 0, w),
        0 <= lb <= run_cost(c, c.initial(), w) <= ub,
        0 <= i < w.len(),
    ensures
        supported(c, s, lb, ub, i, w[i]),
{
    c.lemma_wf();
    let n = s.len();
    let l = w[i];
    let a = w.take(i);
    let b = w.skip(i + 1);
    let p = run_end(c, c.initial(), a);
    let p2 = c.next(p, l as int);
    assert forall|j: int| 0 <= j < w.len() implies #[trigger] w[j] < c.inputs() by {
        assert(s[0 + j].contains(w[j]));
        let k = choose|k: int| 0 <= k < s[j].len() && s[j][k] == w[j];
    }
    assert(w == (a + seq![l]) + b);
    lemma_run_concat(c, c.initial(), a + seq![l], b);
    lemma_run_concat(c, c.initial(), a, seq![l]);
    assert(Seq::<usize>::empty().push(l) == seq![l]);
    lemma_run_push(c, p, Seq::<usize>::empty(), l);
    assert forall|j: int| 0 <= j < a.len() implies #[trigger] a[j] < c.inputs() by {
        assert(a[j] == w[j]);
    }
    lemma_run_bounds(c, c.initial(), a);
    let total = run_cost(c, c.initial(), w);
    let x1 = run_cost(c, c.initial(), a);
    let x2 = run_cost(c, p2, b);
    assert(total == x1 + c.cost(p, l as int) + x2);

    assert(word_within(s, 0, a)) by {
        assert forall|j: int| 0 <= j < a.len() implies #[trigger] s[0 + j].contains(a[j]) by {
            assert(s[0 + j].contains(w[j]));
        }
    }
    assert(crate::cdfa::fwd_word(c, s, false, i as nat, p, a));
    assert(fwd_costs(c, s, false, i as nat, p).contains(x1));
    assert(crate::cdfa::fwd_word(c, s, false, n, run_end(c, c.initial(), w), w));
    assert(word_within(s, i + 1, b)) by {
        assert forall|j: int| 0 <= j < b.len() implies #[trigger] s[(i + 1) + j].contains(b[j]) by {
            assert(s[0 + (i + 1 + j)].contains(w[i + 1 + j]));
        }
    }
    assert(crate::cdfa::bwd_word(c, s, false, (i + 1) as nat, p2, b));
    assert(bwd_costs(c, s, false, (i + 1) as nat, p2).contains(x2));

    let fc = fwd_costs(c, s, false, i as nat, p);
    let bc = bwd_costs(c, s, false, (i + 1) as nat, p2);
    assert forall|y: int| #[trigger] fc.contains(y) implies 0 <= y <= i * c.max_cost() by {
        lemma_fwd_bounded(c, s, false, i as nat, p, y);
    }
    assert forall|y: int| #[trigger] bc.contains(y) implies 0 <= y <= (n - (i + 1)) * c.max_cost() by {
        lemma_bwd_bounded(c, s, false, (i + 1) as nat, p2, y);
    }
    lemma_best_exists(Bound::Min, fc, 0, i * c.max_cost(), x1);
    lemma_best_exists(Bound::Max, fc, 0, i * c.max_cost(), x1);
    lemma_best_exists(Bound::Min, bc, 0, (n - (i + 1)) * c.max_cost(), x2);
    lemma_best_exists(Bound::Max, bc, 0, (n - (i + 1)) * c.max_cost(), x2);
    assert(through(c, s, false, i, p, l));
    assert(least_through(c, s, false, i, p, l) <= total <= greatest_through(c, s, false, i, p, l));
    assert(!misses(lb, ub, least_through(c, s, false, i, p, l), greatest_through(c, s, false, i, p, l)));
}

/// The total cost of a word that fits the symbols and lies within the count's
/// bounds is a total of the words over the symbols that propagation keeps.
pub proof fn lemma_solution_total_kept(c: Cdfa, s: Seq<Seq<usize>>, lb: i32, ub: i32, w: Seq<usize>)
    requires
        c.wf(),
        symbols_valid(c, s),
        w.len() == s.len(),
        word_within(s, 0, w),
        0 <= lb <= run_cost(c, c.initial(), w) <= ub,
    ensures
        full_costs(c, remaining(c, s, lb, ub), false).contains(run_cost(c, c.initial(), w)),
{
    let r = remaining(c, s, lb, ub);
    let keep = |j: int, l: usize| supported(c, s, lb, ub, j, l);
    assert forall|j: int| 0 <= j < w.len() implies #[trigger] r[0 + j].contains(w[j]) by {
        assert(s[0 + j].contains(w[j]));
        lemma_solution_supported(c, s, lb, ub, w, j);
        lemma_row_kept(keep, j, s[j], w[j]);
    }
    let q = run_end(c, c.initial(), w);
    assert(crate::cdfa::fwd_word(c, r, false, r.len(), q, w));
    assert(fwd_costs(c, r, false, r.len(), q).contains(run_cost(c, c.initial(), w)));
}


/// `w` gives each variable a value of its domain.
pub open spec fn assigns_within(domains: Seq<Vec<Letter>>, w: Seq<Letter>) -> bool {
    &&& w.len() == domains.len()
    &&& forall|j: int| 0 <= j < w.len() ==> #[trigger] domains[j]@.contains(w[j])
}

/// The count that the values `w` give: the total cost of reading them, each
/// value `v` as symbol `v - 1`.
pub open spec fn total_of(c: Cdfa, w: Seq<Letter>) -> int {
    run_cost(c, c.initial(), w.map_values(|v: Letter| (v - 1) as usize))
}

/// A word reaching `p` after `i` symbols, then `l`, then a word read on from
/// where `l` leads, is a full word over the symbols with `l` at position `i`,
/// and its total is the sum of the three parts.
proof fn lemma_join_word(c: Cdfa, s: Seq<Seq<usize>>, i: int, p: int, l: usize, a: Seq<usize>, u: Seq<usize>)
    requires
        c.wf(),
        0 <= i < s.len(),
        s[i].contains(l),
        crate::cdfa::fwd_word(c, s, false, i as nat, p, a),
        crate::cdfa::bwd_word(c, s, false, (i + 1) as nat, c.next(p, l as int), u),
    ensures
        ((a + seq![l]) + u).len() == s.len(),
        word_within(s, 0, (a + seq![l]) + u),
        ((a + seq![l]) + u)[i] == l,
        run_cost(c, c.initial(), (a + seq![l]) + u) == run_cost(c, c.initial(), a) + c.cost(p, l as int)
            + run_cost(c, c.next(p, l as int), u),
{
    let w = (a + seq![l]) + u;
    lemma_run_concat(c, c.initial(), a + seq![l], u);
    lemma_run_concat(c, c.initial(), a, seq![l]);
    assert(Seq::<usize>::empty().push(l) == seq![l]);
    lemma_run_push(c, p, Seq::<usize>::empty(), l);
    assert forall|j: int| 0 <= j < w.len() implies #[trigger] s[0 + j].contains(w[j]) by {
        if j < i {
            assert(w[j] == a[j]);
            assert(s[0 + j].contains(a[j]));
        } else if j == i {
            assert(w[j] == l);
        } else {
            let k = j - (i + 1);
            assert(w[j] == u[k]);
            assert(s[(i + 1) + k].contains(u[k]));
        }
    }
}

/// A state that symbol `l` at position `i` can pass lies on a full word over
/// the symbols with `l` there whose total is the least total through it, and
/// on one whose total is the greatest.
proof fn lemma_through_words(c: Cdfa, s: Seq<Seq<usize>>, i: int, p: int, l: usize)
    requires
        c.wf(),
        symbols_valid(c, s),
        0 <= i < s.len(),
        s[i].contains(l),
        through(c, s, false, i, p, l),
    ensures
        exists|w: Seq<usize>| #[trigger] word_within(s, 0, w) && w.len() == s.len() && w[i] == l
            && run_cost(c, c.initial(), w) == least_through(c, s, false, i, p, l),
        exists|w: Seq<usize>| #[trigger] word_within(s, 0, w) && w.len() == s.len() && w[i] == l
            && run_cost(c, c.initial(), w) == greatest_through(c, s, false, i, p, l),
{
    let n = s.len();
    let p2 = c.next(p, l as int);
    let fc = fwd_costs(c, s, false, i as nat, p);
    let bc = bwd_costs(c, s, false, (i + 1) as nat, p2);
    lemma_reaches_cost(c, s, false, i as nat, p);
    lemma_co_reaches_cost(c, s, false, (i + 1) as nat, p2);
    let x1 = choose|x: int| #[trigger] fc.contains(x);
    let x2 = choose|x: int| #[trigger] bc.contains(x);
    assert forall|y: int| #[trigger] fc.contains(y) implies 0 <= y <= i * c.max_cost() by {
        lemma_fwd_bounded(c, s, false, i as nat, p, y);
    }
    assert forall|y: int| #[trigger] bc.contains(y) implies 0 <= y <= (n - (i + 1)) * c.max_cost() by {
        lemma_bwd_bounded(c, s, false, (i + 1) as nat, p2, y);
    }
    lemma_best_exists(Bound::Min, fc, 0, i * c.max_cost(), x1);
    lemma_best_exists(Bound::Max, fc, 0, i * c.max_cost(), x1);
    lemma_best_exists(Bound::Min, bc, 0, (n - (i + 1)) * c.max_cost(), x2);
    lemma_best_exists(Bound::Max, bc, 0, (n - (i + 1)) * c.max_cost(), x2);
    let lo1 = best_of(Bound::Min, fc);
    let hi1 = best_of(Bound::Max, fc);
    let lo2 = best_of(Bound::Min, bc);
    let hi2 = best_of(Bound::Max, bc);
    assert(fc.contains(lo1) && fc.contains(hi1) && bc.contains(lo2) && bc.contains(hi2));
    let a1 = choose|w: Seq<usize>| #[trigger] crate::cdfa::fwd_word(c, s, false, i as nat, p, w) && run_cost(c, c.initial(), w) == lo1;
    let a2 = choose|w: Seq<usize>| #[trigger] crate::cdfa::fwd_word(c, s, false, i as nat, p, w) && run_cost(c, c.initial(), w) == hi1;
    let u1 = choose|u: Seq<usize>| #[trigger] crate::cdfa::bwd_word(c, s, false, (i + 1) as nat, p2, u) && run_cost(c, p2, u) == lo2;
    let u2 = choose|u: Seq<usize>| #[trigger] crate::cdfa::bwd_word(c, s, false, (i + 1) as nat, p2, u) && run_cost(c, p2, u) == hi2;
    lemma_join_word(c, s, i, p, l, a1, u1);
    lemma_join_word(c, s, i, p, l, a2, u2);
    let w1 = (a1 + seq![l]) + u1;
    let w2 = (a2 + seq![l]) + u2;
    assert(word_within(s, 0, w1) && w1.len() == s.len() && w1[i] == l
        && run_cost(c, c.initial(), w1) == least_through(c, s, false, i, p, l));
    assert(word_within(s, 0, w2) && w2.len() == s.len() && w2[i] == l
        && run_cost(c, c.initial(), w2) == greatest_through(c, s, false, i, p, l));
}

/// Pruning is complete: when every full word over the symbols with `l` at
/// position `i` costs more than the count's upper bound, or every one costs
/// less than its lower bound, symbol `l` is not kept at position `i`.
pub proof fn lemma_out_of_bounds_not_supported(c: Cdfa, s: Seq<Seq<usize>>, lb: i32, ub: i32, i: int, l: usize)
    requires
        c.wf(),
        symbols_valid(c, s),
        0 <= i < s.len(),
        s[i].contains(l),
        0 <= lb,
        0 <= ub,
        (forall|w: Seq<usize>| #[trigger] word_within(s, 0, w) && w.len() == s.len() && w[i] == l ==> run_cost(c, c.initial(), w) > ub)
            || (forall|w: Seq<usize>| #[trigger] word_within(s, 0, w) && w.len() == s.len() && w[i] == l ==> run_cost(c, c.initial(), w) < lb),
    ensures
        !supported(c, s, lb, ub, i, l),
{
    if supported(c, s, lb, ub, i, l) {
        let p = choose|p: int| #[trigger] through(c, s, false, i, p, l)
            && !misses(lb, ub, least_through(c, s, false, i, p, l), greatest_through(c, s, false, i, p, l));
        lemma_through_words(c, s, i, p, l);
        let w1 = choose|w: Seq<usize>| #[trigger] word_within(s, 0, w) && w.len() == s.len() && w[i] == l
            && run_cost(c, c.initial(), w) == least_through(c, s, false, i, p, l);
        let w2 = choose|w: Seq<usize>| #[trigger] word_within(s, 0, w) && w.len() == s.len() && w[i] == l
            && run_cost(c, c.initial(), w) == greatest_through(c, s, false, i, p, l);
        assert((ub as u32) as int == ub as int);
        assert((lb as u32) as int == lb as int);
        assert(least_through(c, s, false, i, p, l) <= ub);
        assert(greatest_through(c, s, false, i, p, l) >= lb);
        assert(run_cost(c, c.initial(), w1) <= ub);
        assert(run_cost(c, c.initial(), w2) >= lb);
    }
}


impl<Var, CVar> RegularCdfaPropagator<Var, CVar> {
    /// Propagation loses no solution: when the values `w` fit the domains and
    /// their total cost lies within the count's bounds, no value of `w` is among
    /// the values pruned, and the total lies between the least and the greatest
    /// total that the count's new bounds are taken from.
    pub proof fn lemma_propagation_keeps_solutions(self, domains: Seq<Vec<Letter>>, lb: i32, ub: i32, w: Seq<Letter>)
        requires
            self.wf(),
            domains.len() == self.len(),
            forall|i: int, k: int| 0 <= i < domains.len() && 0 <= k < domains[i]@.len() ==>
                1 <= #[trigger] domains[i]@[k] <= self.automaton().inputs(),
            w.len() == self.len(),
            forall|i: int| 0 <= i < w.len() ==> #[trigger] domains[i]@.contains(w[i]),
            0 <= lb <= run_cost(self.automaton(), self.automaton().initial(), w.map_values(|v: Letter| (v - 1) as usize)) <= ub,
        ensures
            forall|i: int| #![trigger w[i]] 0 <= i < w.len() ==> !prunes(
                |j: int, v: Letter| supported(self.automaton(), symbols_of(domains), lb, ub, j, (v - 1) as usize),
                domains,
                self.len() as int,
            ).contains((i as usize, w[i])),
            forall|lo: int| #[trigger] is_best(Bound::Min, full_costs(self.automaton(), remaining(self.automaton(), symbols_of(domains), lb, ub), false), lo)
                ==> lo <= run_cost(self.automaton(), self.automaton().initial(), w.map_values(|v: Letter| (v - 1) as usize)),
            forall|hi: int| #[trigger] is_best(Bound::Max, full_costs(self.automaton(), remaining(self.automaton(), symbols_of(domains), lb, ub), false), hi)
                ==> run_cost(self.automaton(), self.automaton().initial(), w.map_values(|v: Letter| (v - 1) as usize)) <= hi,
    {
        let c = self.automaton();
        let s = symbols_of(domains);
        let u = w.map_values(|v: Letter| (v - 1) as usize);
        let keep = |j: int, v: Letter| supported(c, s, lb, ub, j, (v - 1) as usize);
        c.lemma_wf();
        assert forall|i: int, k: int| 0 <= i < s.len() && 0 <= k < s[i].len() implies #[trigger] s[i][k] < c.inputs() by {
            assert(1 <= domains[i]@[k] <= c.inputs());
        }
        assert(word_within(s, 0, u)) by {
            assert forall|j: int| 0 <= j < u.len() implies #[trigger] s[0 + j].contains(u[j]) by {
                assert(domains[j]@.contains(w[j]));
                let k = choose|k: int| 0 <= k < domains[j]@.len() && domains[j]@[k] == w[j];
                assert(s[j] == domains[j]@.map_values(|v: Letter| (v - 1) as usize));
                assert(s[j][k] == u[j]);
                assert(s[0 + j] == s[j]);
            }
        }
        assert(domains.len() <= usize::MAX) by {
            vstd::std_specs::vec::axiom_spec_len(&self.sequence);
        }
        assert forall|i: int| #![trigger w[i]] 0 <= i < w.len() implies !prunes(keep, domains, self.len() as int).contains((i as usize, w[i])) by {
            lemma_solution_supported(c, s, lb, ub, u, i);
            crate::regular::lemma_prunes_contains(keep, domains, self.len() as int, i as usize, w[i]);
        }
        lemma_solution_total_kept(c, s, lb, ub, u);
    }

    /// Pruning is complete: a value of a domain with which every assignment of
    /// the domains gives a count above the count's upper bound, or every one a
    /// count below its lower bound, is among the values pruned.
    pub proof fn lemma_propagation_prunes_out_of_bounds(self, domains: Seq<Vec<Letter>>, lb: i32, ub: i32, i: int, v: Letter)
        requires
            self.wf(),
            domains.len() == self.len(),
            forall|j: int, k: int| 0 <= j < domains.len() && 0 <= k < domains[j]@.len() ==>
                1 <= #[trigger] domains[j]@[k] <= self.automaton().inputs(),
            0 <= i < domains.len(),
            domains[i]@.contains(v),
            0 <= lb,
            0 <= ub,
            (forall|w: Seq<Letter>| #[trigger] assigns_within(domains, w) && w[i] == v ==> total_of(self.automaton(), w) > ub)
                || (forall|w: Seq<Letter>| #[trigger] assigns_within(domains, w) && w[i] == v ==> total_of(self.automaton(), w) < lb),
        ensures
            prunes(
                |j: int, x: Letter| supported(self.automaton(), symbols_of(domains), lb, ub, j, (x - 1) as usize),
                domains,
                self.len() as int,
            ).contains((i as usize, v)),
    {
        let c = self.automaton();
        let s = symbols_of(domains);
        let l = (v - 1) as usize;
        let keep = |j: int, x: Letter| supported(c, s, lb, ub, j, (x - 1) as usize);
        c.lemma_wf();
        assert forall|j: int, k: int| 0 <= j < s.len() && 0 <= k < s[j].len() implies #[trigger] s[j][k] < c.inputs() by {
            assert(1 <= domains[j]@[k] <= c.inputs());
        }
        let k0 = choose|k: int| 0 <= k < domains[i]@.len() && domains[i]@[k] == v;
        assert(1 <= domains[i]@[k0] <= c.inputs());
        assert(s[i][k0] == l);
        assert(s[i].contains(l));
        assert forall|u: Seq<usize>| #[trigger] word_within(s, 0, u) && u.len() == s.len() && u[i] == l implies {
            let w = u.map_values(|x: usize| (x + 1) as Letter);
            &&& assigns_within(domains, w)
            &&& w[i] == v
            &&& total_of(c, w) == run_cost(c, c.initial(), u)
        } by {
            let w = u.map_values(|x: usize| (x + 1) as Letter);
            assert forall|j: int| 0 <= j < w.len() implies #[trigger] domains[j]@.contains(w[j]) by {
                assert(s[0 + j].contains(u[j]));
                let k = choose|k: int| 0 <= k < s[j].len() && s[j][k] == u[j];
                assert(1 <= domains[j]@[k] <= c.inputs());
                assert(w[j] == domains[j]@[k]);
            }
            let back = w.map_values(|x: Letter| (x - 1) as usize);
            assert forall|j: int| 0 <= j < u.len() implies #[trigger] back[j] == u[j] by {
                assert(s[0 + j].contains(u[j]));
                let k = choose|k: int| 0 <= k < s[j].len() && s[j][k] == u[j];
                assert(u[j] < c.inputs());
                assert(w[j] == u[j] + 1);
            }
            assert(back =~= u);
        }
        if forall|w: Seq<Letter>| #[trigger] assigns_within(domains, w) && w[i] == v ==> total_of(c, w) > ub {
            assert forall|u: Seq<usize>| #[trigger] word_within(s, 0, u) && u.len() == s.len() && u[i] == l implies
                run_cost(c, c.initial(), u) > ub by {
                let w = u.map_values(|x: usize| (x + 1) as Letter);
                assert(assigns_within(domains, w) && w[i] == v);
            }
        } else {
            assert forall|u: Seq<usize>| #[trigger] word_within(s, 0, u) && u.len() == s.len() && u[i] == l implies
                run_cost(c, c.initial(), u) < lb by {
                let w = u.map_values(|x: usize| (x + 1) as Letter);
                assert(assigns_within(domains, w) && w[i] == v);
            }
        }
        lemma_out_of_bounds_not_supported(c, s, lb, ub, i, l);
        assert(domains.len() <= usize::MAX) by {
            vstd::std_specs::vec::axiom_spec_len(&self.sequence);
        }
        crate::regular::lemma_prunes_contains(keep, domains, self.len() as int, i as usize, v);
    }
}

} // verus!
