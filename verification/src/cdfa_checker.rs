//! The inference checker of the `regular` constraint with costs: from the values
//! the variables may still take and the count's bounds, it decides for each
//! symbol whether some word through it has a total within the bounds, and
//! bounds the count by the least and greatest total.

use vstd::prelude::*;

use crate::Letter;
use crate::cdfa::{Bound, Cdfa, co_reaches, fwd_costs, is_best, reaches, symbols_valid};
use crate::cdfa_checker_tables::{check_bwd_row_ok, check_fwd_row_ok, compute_qcb_and_qcf_for_check, proj_max, proj_min};
use crate::cdfa_tables::{costs_fit, fwd_row_ok, lemma_fwd_bounded, views};
use crate::regular_cdfa::{best_of, full_costs, greatest_through, least_through, through};

verus! {

/// A bound of the count: an integer, or an infinity.
#[derive(Clone, Copy, Debug)]
pub enum ExtendedInt {
    NegativeInfinity,
    Int(i32),
    PositiveInfinity,
}

/// `a <= b`, the infinities below and above every integer.
pub open spec fn ext_le(a: ExtendedInt, b: ExtendedInt) -> bool {
    match (a, b) {
        (ExtendedInt::NegativeInfinity, _) => true,
        (_, ExtendedInt::PositiveInfinity) => true,
        (ExtendedInt::Int(x), ExtendedInt::Int(y)) => x <= y,
        _ => false,
    }
}

/// `a <= b`, the infinities below and above every integer.
pub fn ext_less_equal(a: ExtendedInt, b: ExtendedInt) -> (r: bool)
    ensures
        r == ext_le(a, b),
{
    match (a, b) {
        (ExtendedInt::NegativeInfinity, _) => true,
        (_, ExtendedInt::PositiveInfinity) => true,
        (ExtendedInt::Int(x), ExtendedInt::Int(y)) => x <= y,
        _ => false,
    }
}

/// A fact the checker states of the variables, to be applied to its state.
#[derive(Clone, Copy, Debug)]
pub enum CheckerAtomic {
    /// The variable at this position of the sequence may take this value.
    SequenceEqual(usize, i32),
    /// The variable at this position of the sequence does not take this value.
    SequenceNotEqual(usize, i32),
    /// The count is above this value.
    CountGreaterThan(i32),
    /// The count is below this value.
    CountLessThan(i32),
}

/// The symbols `l < k` whose value `l + 1` the domain holds, in order.
pub open spec fn present_symbols(domain: Seq<Letter>, k: nat) -> Seq<usize>
    decreases k,
{
    if k == 0 {
        Seq::empty()
    } else {
        let rest = present_symbols(domain, (k - 1) as nat);
        if domain.contains(k as i32) { rest.push((k - 1) as usize) } else { rest }
    }
}

/// The symbols of each variable that the checker considers.
pub open spec fn checker_symbols(domains: Seq<Vec<Letter>>, num_inputs: nat) -> Seq<Seq<usize>> {
    Seq::new(domains.len(), |i: int| present_symbols(domains[i]@, num_inputs))
}

/// Some state that symbol `l` can be read in at position `i` gives a range of
/// totals that meets `lb..=ub`.
pub open spec fn check_supported(c: Cdfa, s: Seq<Seq<usize>>, lb: ExtendedInt, ub: ExtendedInt, i: int, l: usize) -> bool {
    exists|p: int| #[trigger] through(c, s, false, i, p, l)
        && ext_le(lb, ExtendedInt::Int(greatest_through(c, s, false, i, p, l) as i32))
        && ext_le(ExtendedInt::Int(least_through(c, s, false, i, p, l) as i32), ub)
}

/// The atomics of the `i`-th variable: each of its symbols is allowed or not.
pub open spec fn atoms_row(c: Cdfa, s: Seq<Seq<usize>>, lb: ExtendedInt, ub: ExtendedInt, i: int, row: Seq<usize>) -> Seq<CheckerAtomic> {
    row.map_values(|l: usize| if check_supported(c, s, lb, ub, i, l) {
        CheckerAtomic::SequenceEqual(i as usize, (l + 1) as i32)
    } else {
        CheckerAtomic::SequenceNotEqual(i as usize, (l + 1) as i32)
    })
}

/// The atomics of the first `k` variables.
pub open spec fn atoms_upto(c: Cdfa, s: Seq<Seq<usize>>, lb: ExtendedInt, ub: ExtendedInt, k: int) -> Seq<CheckerAtomic>
    decreases k,
{
    if k <= 0 {
        Seq::empty()
    } else {
        atoms_upto(c, s, lb, ub, k - 1) + atoms_row(c, s, lb, ub, k - 1, s[k - 1])
    }
}

/// The symbols `l < num_inputs` whose value `l + 1` each domain holds.
fn sequence_domains_of(domains: &Vec<Vec<Letter>>, num_inputs: u32) -> (s: Vec<Vec<usize>>)
    requires
        num_inputs < i32::MAX,
    ensures
        views(s@) == checker_symbols(domains@, num_inputs as nat),
{
    let mut sequence_domains: Vec<Vec<usize>> = Vec::new();
    let mut i: usize = 0;
    while i < domains.len()
        invariant
            num_inputs < i32::MAX,
            i <= domains@.len(),
            sequence_domains@.len() == i,
            forall|j: int| 0 <= j < i ==> (#[trigger] sequence_domains@[j])@ == present_symbols(domains@[j]@, num_inputs as nat),
        decreases domains@.len() - i,
    {
        let mut symbols: Vec<usize> = Vec::new();
        let mut l: u32 = 1;
        while l < num_inputs + 1
            invariant
                num_inputs < i32::MAX,
                i < domains@.len(),
                1 <= l <= num_inputs + 1,
                symbols@ == present_symbols(domains@[i as int]@, (l - 1) as nat),
            decreases num_inputs + 1 - l,
        {
            if crate::layered_graph::contains_letter(&domains[i], l as i32) {
                symbols.push((l - 1) as usize);
            }
            l = l + 1;
        }
        sequence_domains.push(symbols);
        i = i + 1;
    }
    assert(views(sequence_domains@) == checker_symbols(domains@, num_inputs as nat));
    sequence_domains
}

/// Whether some listed state of the forward row, with its successor by `l` listed
/// in the backward row, gives a range of totals that meets `lb..=ub`.
fn symbol_allowed(
    c_dfa: &Cdfa,
    qcf: &Vec<(u32, (u32, u32))>,
    qcb: &Vec<(u32, (u32, u32))>,
    l: usize,
    lb: ExtendedInt,
    ub: ExtendedInt,
    Ghost(cap): Ghost<int>,
) -> (allowed: bool)
    requires
        c_dfa.wf(),
        l < c_dfa.inputs(),
        cap + c_dfa.max_cost() <= i32::MAX,
        forall|r: int| 0 <= r < qcf@.len() ==> (#[trigger] qcf@[r]).0 < c_dfa.states(),
        forall|r: int, t: int| 0 <= r < qcf@.len() && 0 <= t < qcb@.len() ==>
            (#[trigger] qcf@[r]).1.0 + (#[trigger] qcb@[t]).1.0 <= cap && qcf@[r].1.1 + qcb@[t].1.1 <= cap,
    ensures
        allowed <==> exists|r: int, t: int| #![trigger qcf@[r], qcb@[t]]
            0 <= r < qcf@.len() && 0 <= t < qcb@.len() && qcb@[t].0 == c_dfa.next(qcf@[r].0 as int, l as int)
            && ext_le(lb, ExtendedInt::Int((qcf@[r].1.1 + c_dfa.cost(qcf@[r].0 as int, l as int) + qcb@[t].1.1) as i32))
            && ext_le(ExtendedInt::Int((qcf@[r].1.0 + c_dfa.cost(qcf@[r].0 as int, l as int) + qcb@[t].1.0) as i32), ub),
{
    let mut r: usize = 0;
    while r < qcf.len()
        invariant
            c_dfa.wf(),
            l < c_dfa.inputs(),
            cap + c_dfa.max_cost() <= i32::MAX,
            forall|r: int| 0 <= r < qcf@.len() ==> (#[trigger] qcf@[r]).0 < c_dfa.states(),
            forall|r: int, t: int| 0 <= r < qcf@.len() && 0 <= t < qcb@.len() ==>
                (#[trigger] qcf@[r]).1.0 + (#[trigger] qcb@[t]).1.0 <= cap && qcf@[r].1.1 + qcb@[t].1.1 <= cap,
            r <= qcf@.len(),
            forall|r2: int, t: int| #![trigger qcf@[r2], qcb@[t]]
                0 <= r2 < r && 0 <= t < qcb@.len() && qcb@[t].0 == c_dfa.next(qcf@[r2].0 as int, l as int) ==>
                !(ext_le(lb, ExtendedInt::Int((qcf@[r2].1.1 + c_dfa.cost(qcf@[r2].0 as int, l as int) + qcb@[t].1.1) as i32))
                && ext_le(ExtendedInt::Int((qcf@[r2].1.0 + c_dfa.cost(qcf@[r2].0 as int, l as int) + qcb@[t].1.0) as i32), ub)),
        decreases qcf@.len() - r,
    {
        let (prev_q, (min_c_before, max_c_before)) = qcf[r];
        let ref_q = c_dfa.next_state(prev_q, l);
        let step = c_dfa.step_cost(prev_q, l);
        proof {
            c_dfa.lemma_wf();
        }
        let mut t: usize = 0;
        while t < qcb.len()
            invariant
                c_dfa.wf(),
                l < c_dfa.inputs(),
                cap + c_dfa.max_cost() <= i32::MAX,
                forall|r: int| 0 <= r < qcf@.len() ==> (#[trigger] qcf@[r]).0 < c_dfa.states(),
                forall|r: int, t: int| 0 <= r < qcf@.len() && 0 <= t < qcb@.len() ==>
                    (#[trigger] qcf@[r]).1.0 + (#[trigger] qcb@[t]).1.0 <= cap && qcf@[r].1.1 + qcb@[t].1.1 <= cap,
                r < qcf@.len(),
                (prev_q, (min_c_before, max_c_before)) == qcf@[r as int],
                ref_q == c_dfa.next(prev_q as int, l as int),
                step == c_dfa.cost(prev_q as int, l as int),
                step <= c_dfa.max_cost(),
                t <= qcb@.len(),
                forall|r2: int, t2: int| #![trigger qcf@[r2], qcb@[t2]]
                    0 <= r2 < qcf@.len() && 0 <= t2 < qcb@.len() && (r2 < r || (r2 == r && t2 < t))
                    && qcb@[t2].0 == c_dfa.next(qcf@[r2].0 as int, l as int) ==>
                    !(ext_le(lb, ExtendedInt::Int((qcf@[r2].1.1 + c_dfa.cost(qcf@[r2].0 as int, l as int) + qcb@[t2].1.1) as i32))
                    && ext_le(ExtendedInt::Int((qcf@[r2].1.0 + c_dfa.cost(qcf@[r2].0 as int, l as int) + qcb@[t2].1.0) as i32), ub)),
            decreases qcb@.len() - t,
        {
            let (q, (min_c_after, max_c_after)) = qcb[t];
            if q == ref_q {
                assert(qcf@[r as int].1.0 + qcb@[t as int].1.0 <= cap && qcf@[r as int].1.1 + qcb@[t as int].1.1 <= cap);
                let min_c = ExtendedInt::Int((min_c_before + step + min_c_after) as i32);
                let max_c = ExtendedInt::Int((max_c_before + step + max_c_after) as i32);
                if ext_less_equal(lb, max_c) && ext_less_equal(min_c, ub) {
                    return true;
                }
            }
            t = t + 1;
        }
        r = r + 1;
    }
    false
}

/// What `symbol_allowed` finds on correct checker rows is what `check_supported` says.
proof fn lemma_allowed_bridge(
    c: Cdfa,
    s: Seq<Seq<usize>>,
    i: nat,
    qcf: Seq<(u32, (u32, u32))>,
    qcb: Seq<(u32, (u32, u32))>,
    l: usize,
    lb: ExtendedInt,
    ub: ExtendedInt,
)
    requires
        c.wf(),
        symbols_valid(c, s),
        i < s.len(),
        l < c.inputs(),
        check_fwd_row_ok(c, s, i, qcf),
        check_bwd_row_ok(c, s, i + 1, qcb),
    ensures
        (exists|r: int, t: int| #![trigger qcf[r], qcb[t]]
            0 <= r < qcf.len() && 0 <= t < qcb.len() && qcb[t].0 == c.next(qcf[r].0 as int, l as int)
            && ext_le(lb, ExtendedInt::Int((qcf[r].1.1 + c.cost(qcf[r].0 as int, l as int) + qcb[t].1.1) as i32))
            && ext_le(ExtendedInt::Int((qcf[r].1.0 + c.cost(qcf[r].0 as int, l as int) + qcb[t].1.0) as i32), ub))
            <==> check_supported(c, s, lb, ub, i as int, l),
        forall|r: int| 0 <= r < qcf.len() ==> (#[trigger] qcf[r]).0 < c.states() && qcf[r].1.0 <= i * c.max_cost()
            && qcf[r].1.1 <= i * c.max_cost(),
        forall|t: int| 0 <= t < qcb.len() ==> (#[trigger] qcb[t]).1.0 <= (s.len() - (i + 1)) * c.max_cost()
            && qcb[t].1.1 <= (s.len() - (i + 1)) * c.max_cost(),
{
    crate::regular_cdfa::lemma_fwd_row_pairs(c, s, false, Bound::Min, i, proj_min(qcf));
    crate::regular_cdfa::lemma_fwd_row_pairs(c, s, false, Bound::Max, i, proj_max(qcf));
    crate::regular_cdfa::lemma_bwd_row_pairs(c, s, false, Bound::Min, i + 1, proj_min(qcb));
    crate::regular_cdfa::lemma_bwd_row_pairs(c, s, false, Bound::Max, i + 1, proj_max(qcb));
    assert forall|r: int| 0 <= r < qcf.len() implies {
        &&& reaches(c, s, false, i, (#[trigger] qcf[r]).0 as int)
        &&& qcf[r].1.0 == best_of(Bound::Min, fwd_costs(c, s, false, i, qcf[r].0 as int))
        &&& qcf[r].1.1 == best_of(Bound::Max, fwd_costs(c, s, false, i, qcf[r].0 as int))
        &&& qcf[r].0 < c.states() && qcf[r].1.0 <= i * c.max_cost() && qcf[r].1.1 <= i * c.max_cost()
    } by {
        assert(proj_min(qcf)[r] == (qcf[r].0, qcf[r].1.0));
        assert(proj_max(qcf)[r] == (qcf[r].0, qcf[r].1.1));
        assert(proj_min(qcf).contains((qcf[r].0, qcf[r].1.0)));
        assert(proj_max(qcf).contains((qcf[r].0, qcf[r].1.1)));
    }
    assert forall|t: int| 0 <= t < qcb.len() implies {
        &&& co_reaches(c, s, false, i + 1, (#[trigger] qcb[t]).0 as int)
        &&& qcb[t].1.0 == best_of(Bound::Min, crate::cdfa::bwd_costs(c, s, false, i + 1, qcb[t].0 as int))
        &&& qcb[t].1.1 == best_of(Bound::Max, crate::cdfa::bwd_costs(c, s, false, i + 1, qcb[t].0 as int))
        &&& qcb[t].1.0 <= (s.len() - (i + 1)) * c.max_cost() && qcb[t].1.1 <= (s.len() - (i + 1)) * c.max_cost()
    } by {
        assert(proj_min(qcb)[t] == (qcb[t].0, qcb[t].1.0));
        assert(proj_max(qcb)[t] == (qcb[t].0, qcb[t].1.1));
        assert(proj_min(qcb).contains((qcb[t].0, qcb[t].1.0)));
        assert(proj_max(qcb).contains((qcb[t].0, qcb[t].1.1)));
    }
    if check_supported(c, s, lb, ub, i as int, l) {
        let p = choose|p: int| #[trigger] through(c, s, false, i as int, p, l)
            && ext_le(lb, ExtendedInt::Int(greatest_through(c, s, false, i as int, p, l) as i32))
            && ext_le(ExtendedInt::Int(least_through(c, s, false, i as int, p, l) as i32), ub);
        let q = c.next(p, l as int);
        let r = choose|r: int| 0 <= r < proj_min(qcf).len() && proj_min(qcf)[r].0 == p;
        let t = choose|t: int| 0 <= t < proj_min(qcb).len() && proj_min(qcb)[t].0 == q;
        assert(qcf[r].0 == p);
        assert(qcb[t].0 == q);
        assert(qcf[r].1.1 + c.cost(qcf[r].0 as int, l as int) + qcb[t].1.1 == greatest_through(c, s, false, i as int, p, l));
        assert(qcf[r].1.0 + c.cost(qcf[r].0 as int, l as int) + qcb[t].1.0 == least_through(c, s, false, i as int, p, l));
    }
    if exists|r: int, t: int| #![trigger qcf[r], qcb[t]]
        0 <= r < qcf.len() && 0 <= t < qcb.len() && qcb[t].0 == c.next(qcf[r].0 as int, l as int)
        && ext_le(lb, ExtendedInt::Int((qcf[r].1.1 + c.cost(qcf[r].0 as int, l as int) + qcb[t].1.1) as i32))
        && ext_le(ExtendedInt::Int((qcf[r].1.0 + c.cost(qcf[r].0 as int, l as int) + qcb[t].1.0) as i32), ub) {
        let (r, t) = choose|r: int, t: int| #![trigger qcf[r], qcb[t]]
            0 <= r < qcf.len() && 0 <= t < qcb.len() && qcb[t].0 == c.next(qcf[r].0 as int, l as int)
            && ext_le(lb, ExtendedInt::Int((qcf[r].1.1 + c.cost(qcf[r].0 as int, l as int) + qcb[t].1.1) as i32))
            && ext_le(ExtendedInt::Int((qcf[r].1.0 + c.cost(qcf[r].0 as int, l as int) + qcb[t].1.0) as i32), ub);
        let p = qcf[r].0 as int;
        assert(through(c, s, false, i as int, p, l));
    }
}

/// The least total cost of a set, as an `i32`; `u32::MAX` so read when the set is empty.
pub open spec fn least_total(full: Set<int>) -> i32 {
    if exists|x: int| #[trigger] full.contains(x) { best_of(Bound::Min, full) as i32 } else { u32::MAX as i32 }
}

/// The greatest total cost of a set, as an `i32`; 0 when the set is empty.
pub open spec fn greatest_total(full: Set<int>) -> i32 {
    if exists|x: int| #[trigger] full.contains(x) { best_of(Bound::Max, full) as i32 } else { 0 }
}

/// The inference checker of the `regular` constraint with costs.
#[derive(Clone, Debug)]
pub struct RegularCdfaChecker<Var, CVar> {
    sequence: Vec<Var>,
    count: CVar,
    c_dfa: Cdfa,
}

impl<Var, CVar> RegularCdfaChecker<Var, CVar> {
    /// The automaton is well formed, a word's total cost fits the count, and a
    /// symbol's value fits an `i32`.
    pub closed spec fn wf(self) -> bool {
        &&& self.c_dfa.wf()
        &&& costs_fit(self.c_dfa, self.sequence@.len() as nat)
        &&& self.c_dfa.inputs() < i32::MAX
    }

    /// The number of variables of the sequence.
    pub closed spec fn len(self) -> nat {
        self.sequence@.len()
    }

    /// The counting DFA.
    pub closed spec fn automaton(self) -> Cdfa {
        self.c_dfa
    }

    /// The sequence's variables.
    pub closed spec fn variables(self) -> Seq<Var> {
        self.sequence@
    }

    /// The count variable.
    pub closed spec fn count_variable(self) -> CVar {
        self.count
    }

    /// What a well-formed checker holds: a well-formed automaton whose word
    /// totals fit the count, and whose symbols' values fit an `i32`.
    pub proof fn lemma_wf(self)
        requires
            self.wf(),
        ensures
            self.automaton().wf(),
            costs_fit(self.automaton(), self.len()),
            self.automaton().inputs() < i32::MAX,
    {
    }

    /// A checker is well formed when its automaton is, its costs fit, and its
    /// symbols fit an `i32`.
    pub proof fn lemma_wf_of(self, c: Cdfa)
        requires
            self.automaton() == c,
            c.wf(),
            costs_fit(c, self.len()),
            c.inputs() < i32::MAX,
        ensures
            self.wf(),
    {
    }

    /// A checker over the sequence, the count and the counting DFA.
    pub fn new(sequence: Vec<Var>, count: CVar, c_dfa: Cdfa) -> (checker: Self)
        ensures
            checker.len() == sequence@.len(),
            checker.variables() == sequence@,
            checker.count_variable() == count,
            checker.automaton() == c_dfa,
    {
        RegularCdfaChecker { sequence, count, c_dfa }
    }

    /// Given the values each variable may take and the count's bounds: for each
    /// variable and each symbol `l` whose value `l + 1` its domain holds, in
    /// order, the value is allowed exactly when some state it can be read in gives
    /// a range of totals meeting the bounds;
    /// then the count is above the least total and below the greatest. The
    /// checker's state is in conflict when applying these facts fails.
    pub fn check(&self, domains: &Vec<Vec<Letter>>, count_lb: ExtendedInt, count_ub: ExtendedInt) -> (atomics: Vec<CheckerAtomic>)
        requires
            self.wf(),
            domains@.len() == self.len(),
        ensures
            atomics@ == atoms_upto(self.automaton(), checker_symbols(domains@, self.automaton().inputs()), count_lb, count_ub,
                self.len() as int) + seq![
                CheckerAtomic::CountGreaterThan(least_total(full_costs(self.automaton(),
                    checker_symbols(domains@, self.automaton().inputs()), false))),
                CheckerAtomic::CountLessThan(greatest_total(full_costs(self.automaton(),
                    checker_symbols(domains@, self.automaton().inputs()), false))),
            ],
    {
        let ghost c = self.c_dfa;
        let n = self.sequence.len();
        let sequence_domains = sequence_domains_of(domains, self.c_dfa.num_inputs());
        let ghost s = views(sequence_domains@);
        proof {
            c.lemma_wf();
            assert(s.len() == n);
            assert forall|i: int, k: int| 0 <= i < s.len() && 0 <= k < s[i].len() implies #[trigger] s[i][k] < c.inputs() by {
                lemma_present_symbols(domains@[i]@, c.inputs(), s[i][k]);
                assert(s[i].contains(s[i][k]));
            }
            assert(symbols_valid(c, s));
        }
        let mut qcf_table: Vec<Vec<(u32, (u32, u32))>> = Vec::new();
        let mut qcb_table: Vec<Vec<(u32, (u32, u32))>> = Vec::new();
        compute_qcb_and_qcf_for_check(&sequence_domains, &self.c_dfa, &mut qcf_table, &mut qcb_table, 0);
        let lb = count_lb;
        let ub = count_ub;
        let mut atomics: Vec<CheckerAtomic> = Vec::new();
        let mut i: usize = 0;
        while i < n
            invariant
                self.wf(),
                c == self.c_dfa,
                n == self.len(),
                n == sequence_domains@.len(),
                s.len() == n,
                s == views(sequence_domains@),
                s == checker_symbols(domains@, c.inputs()),
                symbols_valid(c, s),
                lb == count_lb,
                ub == count_ub,
                qcf_table@.len() == n + 1,
                qcb_table@.len() == n + 1,
                forall|k: int| 0 <= k < n + 1 ==> check_fwd_row_ok(c, s, k as nat, #[trigger] qcf_table@[k]@),
                forall|k: int| 0 <= k < n + 1 ==> check_bwd_row_ok(c, s, (n - k) as nat, #[trigger] qcb_table@[k]@),
                i <= n,
                atomics@ == atoms_upto(c, s, lb, ub, i as int),
            decreases n - i,
        {
            let qcf = &qcf_table[i];
            let qcb = &qcb_table[n - i - 1];
            let symbols = &sequence_domains[i];
            let ghost cap: int = (n - 1) * c.max_cost();
            proof {
                assert(s[i as int] == symbols@);
                assert(i * c.max_cost() + (n - (i + 1)) * c.max_cost() == cap) by (nonlinear_arith)
                    requires
                        i < n,
                        cap == (n - 1) * c.max_cost(),
                ;
                assert(cap + c.max_cost() == n * c.max_cost()) by (nonlinear_arith)
                    requires
                        n >= 1,
                        cap == (n - 1) * c.max_cost(),
                ;
                assert(check_bwd_row_ok(c, s, (i + 1) as nat, qcb@));
            }
            let ghost base = atomics@;
            let mut t: usize = 0;
            while t < symbols.len()
                invariant
                    self.wf(),
                    c == self.c_dfa,
                    n == self.len(),
                    i < n,
                    s.len() == n,
                    s == checker_symbols(domains@, c.inputs()),
                    symbols_valid(c, s),
                    s[i as int] == symbols@,
                    lb == count_lb,
                    ub == count_ub,
                    check_fwd_row_ok(c, s, i as nat, qcf@),
                    check_bwd_row_ok(c, s, (i + 1) as nat, qcb@),
                    cap + c.max_cost() <= i32::MAX,
                    cap == (n - 1) * c.max_cost(),
                    i * c.max_cost() + (n - (i + 1)) * c.max_cost() == cap,
                    t <= symbols@.len(),
                    base == atoms_upto(c, s, lb, ub, i as int),
                    atomics@ == base + atoms_row(c, s, lb, ub, i as int, symbols@.take(t as int)),
                decreases symbols@.len() - t,
            {
                let l = symbols[t];
                proof {
                    assert(symbols@.contains(l));
                    let k = choose|k: int| 0 <= k < symbols@.len() && symbols@[k] == l;
                    assert(s[i as int][k] < c.inputs());
                    lemma_allowed_bridge(c, s, i as nat, qcf@, qcb@, l, lb, ub);
                    assert forall|r: int, q: int| 0 <= r < qcf@.len() && 0 <= q < qcb@.len() implies
                        (#[trigger] qcf@[r]).1.0 + (#[trigger] qcb@[q]).1.0 <= cap && qcf@[r].1.1 + qcb@[q].1.1 <= cap by {}
                }
                let allowed = symbol_allowed(&self.c_dfa, qcf, qcb, l, lb, ub, Ghost(cap));
                let value = (l + 1) as i32;
                if allowed {
                    atomics.push(CheckerAtomic::SequenceEqual(i, value));
                } else {
                    atomics.push(CheckerAtomic::SequenceNotEqual(i, value));
                }
                proof {
                    assert(symbols@.take(t + 1) == symbols@.take(t as int).push(l));
                    assert(atoms_row(c, s, lb, ub, i as int, symbols@.take(t + 1))
                        == atoms_row(c, s, lb, ub, i as int, symbols@.take(t as int)).push(
                            if check_supported(c, s, lb, ub, i as int, l) {
                                CheckerAtomic::SequenceEqual(i, value)
                            } else {
                                CheckerAtomic::SequenceNotEqual(i, value)
                            }));
                }
                t = t + 1;
            }
            proof {
                assert(symbols@.take(symbols@.len() as int) == symbols@);
            }
            i = i + 1;
        }
        let last = &qcf_table[n];
        let mut min_min_c: u32 = u32::MAX;
        let mut max_max_c: u32 = u32::MIN;
        proof {
            crate::regular_cdfa::lemma_fwd_row_pairs(c, s, false, Bound::Min, n as nat, proj_min(last@));
            crate::regular_cdfa::lemma_fwd_row_pairs(c, s, false, Bound::Max, n as nat, proj_max(last@));
            assert forall|j: int| 0 <= j < last@.len() implies (#[trigger] last@[j]).1.0 <= i32::MAX && last@[j].1.1 <= i32::MAX by {
                assert(proj_min(last@)[j].1 == last@[j].1.0);
                assert(proj_max(last@)[j].1 == last@[j].1.1);
            }
        }
        let mut k: usize = 0;
        while k < last.len()
            invariant
                k <= last@.len(),
                forall|j: int| 0 <= j < last@.len() ==> (#[trigger] last@[j]).1.0 <= i32::MAX && last@[j].1.1 <= i32::MAX,
                max_max_c <= i32::MAX,
                k == 0 ==> min_min_c == u32::MAX && max_max_c == 0,
                k > 0 ==> exists|j: int| 0 <= j < k && min_min_c == (#[trigger] last@[j]).1.0,
                k > 0 ==> exists|j: int| 0 <= j < k && max_max_c == (#[trigger] last@[j]).1.1,
                forall|j: int| 0 <= j < k ==> min_min_c <= (#[trigger] last@[j]).1.0 && max_max_c >= last@[j].1.1,
            decreases last@.len() - k,
        {
            let (_, (min_c, max_c)) = last[k];
            if min_c < min_min_c {
                min_min_c = min_c;
            }
            if max_c > max_max_c {
                max_max_c = max_c;
            }
            k = k + 1;
        }
        let lo = min_min_c as i32;
        let hi = max_max_c as i32;
        atomics.push(CheckerAtomic::CountGreaterThan(lo));
        atomics.push(CheckerAtomic::CountLessThan(hi));
        proof {
            let pmin = proj_min(last@);
            let pmax = proj_max(last@);
            assert(check_fwd_row_ok(c, s, n as nat, last@));
            if last@.len() > 0 {
                let j1 = choose|j: int| 0 <= j < last@.len() && min_min_c == (#[trigger] last@[j]).1.0;
                let j2 = choose|j: int| 0 <= j < last@.len() && max_max_c == (#[trigger] last@[j]).1.1;
                assert(pmin[j1].1 == lo);
                assert(pmax[j2].1 == hi);
                assert forall|j: int| 0 <= j < pmin.len() implies crate::cdfa::no_worse(Bound::Min, lo as int, (#[trigger] pmin[j]).1 as int) by {
                    assert(pmin[j].1 == last@[j].1.0);
                }
                assert forall|j: int| 0 <= j < pmax.len() implies crate::cdfa::no_worse(Bound::Max, hi as int, (#[trigger] pmax[j]).1 as int) by {
                    assert(pmax[j].1 == last@[j].1.1);
                }
            }
            crate::regular_cdfa::lemma_full_costs(c, s, false, Bound::Min, pmin, lo as int);
            crate::regular_cdfa::lemma_full_costs(c, s, false, Bound::Max, pmax, hi as int);
            let full = full_costs(c, s, false);
            if exists|x: int| #[trigger] full.contains(x) {
                crate::regular_cdfa::lemma_best_unique(Bound::Min, full, lo as int);
                crate::regular_cdfa::lemma_best_unique(Bound::Max, full, hi as int);
            }
            assert(atomics@ == atoms_upto(c, s, lb, ub, n as int)
                + seq![CheckerAtomic::CountGreaterThan(lo), CheckerAtomic::CountLessThan(hi)]);
        }
        atomics
    }
}

/// The symbols kept are symbols of the automaton.
proof fn lemma_present_symbols(domain: Seq<Letter>, k: nat, x: usize)
    ensures
        present_symbols(domain, k).contains(x) ==> x < k,
    decreases k,
{
    if k > 0 {
        lemma_present_symbols(domain, (k - 1) as nat, x);
        let rest = present_symbols(domain, (k - 1) as nat);
        if present_symbols(domain, k).contains(x) && domain.contains(k as i32) {
            let ext = rest.push((k - 1) as usize);
            let j = choose|j: int| 0 <= j < ext.len() && #[trigger] ext[j] == x;
            if j < rest.len() {
                assert(rest[j] == x);
            }
        }
    }
}

} // verus!
