//! Counting DFAs: every transition adds a cost to a count. The words of a
//! sequence of variables are read symbol by symbol, and the model below says
//! which states they reach and at which costs.

use vstd::prelude::*;

verus! {

/// The largest entry of a row of costs.
pub open spec fn row_max(r: Seq<u32>) -> nat
    decreases r.len(),
{
    if r.len() == 0 {
        0
    } else {
        let m = row_max(r.drop_last());
        if r.last() > m { r.last() as nat } else { m }
    }
}

/// The largest entry of a table of costs.
pub open spec fn table_max(t: Seq<Vec<u32>>) -> nat
    decreases t.len(),
{
    if t.len() == 0 {
        0
    } else {
        let m = table_max(t.drop_last());
        let r = row_max(t.last()@);
        if r > m { r } else { m }
    }
}

proof fn lemma_row_max(r: Seq<u32>, l: int)
    requires
        0 <= l < r.len(),
    ensures
        r[l] <= row_max(r),
    decreases r.len(),
{
    if l < r.len() - 1 {
        lemma_row_max(r.drop_last(), l);
    }
}

proof fn lemma_table_max(t: Seq<Vec<u32>>, q: int, l: int)
    requires
        0 <= q < t.len(),
        0 <= l < t[q]@.len(),
    ensures
        t[q]@[l] <= table_max(t),
    decreases t.len(),
{
    if q < t.len() - 1 {
        lemma_table_max(t.drop_last(), q, l);
    } else {
        lemma_row_max(t[q]@, l);
    }
}

proof fn lemma_row_max_attained(r: Seq<u32>)
    ensures
        row_max(r) == 0 || exists|l: int| 0 <= l < r.len() && r[l] == row_max(r),
    decreases r.len(),
{
    if r.len() > 0 {
        lemma_row_max_attained(r.drop_last());
        if row_max(r) != r.last() && row_max(r) != 0 {
            let l = choose|l: int| 0 <= l < r.drop_last().len() && r.drop_last()[l] == row_max(r.drop_last());
            assert(r[l] == row_max(r));
        }
        if row_max(r) == r.last() {
            assert(r[r.len() - 1] == row_max(r));
        }
    }
}

proof fn lemma_table_max_attained(t: Seq<Vec<u32>>)
    ensures
        table_max(t) == 0 || exists|q: int, l: int| 0 <= q < t.len() && 0 <= l < t[q]@.len() && t[q]@[l] == table_max(t),
    decreases t.len(),
{
    if t.len() > 0 {
        lemma_table_max_attained(t.drop_last());
        lemma_row_max_attained(t.last()@);
        let m = table_max(t.drop_last());
        let r = row_max(t.last()@);
        if r > m {
            if r != 0 {
                let l = choose|l: int| 0 <= l < t.last()@.len() && t.last()@[l] == r;
                assert(t[t.len() - 1]@[l] == table_max(t));
            }
        } else if m != 0 {
            let (q, l) = choose|q: int, l: int| 0 <= q < t.drop_last().len() && 0 <= l < t.drop_last()[q]@.len()
                && t.drop_last()[q]@[l] == m;
            assert(t[q]@[l] == table_max(t));
        }
    }
}

/// A counting DFA with states `0..num_states` and symbols `0..num_inputs`:
/// from state `q`, symbol `l` leads to `transition_matrix[q][l]` and adds
/// `inc[q][l]` to the count.
#[derive(Clone, Debug)]
pub struct Cdfa {
    num_states: u32,
    num_inputs: u32,
    transition_matrix: Vec<Vec<u32>>,
    initial_state: u32,
    inc: Vec<Vec<u32>>,
}

/// The description of a counting DFA in the 1-based convention is well formed:
/// at least `num_states` rows of at least `num_inputs` transitions each, whose
/// declared part (the first `num_states` rows, the first `num_inputs` entries of
/// each) leads to states `1..=num_states`; an initial state among them; costs
/// that are not negative. Entries past the declared part are never read.
pub open spec fn valid_description(
    num_states: u32,
    num_inputs: u32,
    transition_matrix: Seq<Vec<i32>>,
    initial_state: i32,
    inc: Seq<Vec<i32>>,
) -> bool {
    &&& transition_matrix.len() >= num_states
    &&& inc.len() >= num_states
    &&& 1 <= initial_state <= num_states
    &&& forall|q: int| 0 <= q < num_states ==> (#[trigger] transition_matrix[q])@.len() >= num_inputs
    &&& forall|q: int| 0 <= q < num_states ==> (#[trigger] inc[q])@.len() >= num_inputs
    &&& forall|q: int, l: int| 0 <= q < num_states && 0 <= l < num_inputs ==>
        1 <= #[trigger] transition_matrix[q]@[l] <= num_states
    &&& forall|q: int, l: int| 0 <= q < num_states && 0 <= l < num_inputs ==> 0 <= #[trigger] inc[q]@[l]
}

impl Cdfa {
    /// The tables have one row per state and one entry per symbol, and every
    /// transition leads to a state.
    pub closed spec fn wf(self) -> bool {
        &&& self.transition_matrix@.len() == self.num_states
        &&& self.inc@.len() == self.num_states
        &&& self.initial_state < self.num_states
        &&& forall|q: int| 0 <= q < self.num_states ==> (#[trigger] self.transition_matrix@[q])@.len() == self.num_inputs
        &&& forall|q: int| 0 <= q < self.num_states ==> (#[trigger] self.inc@[q])@.len() == self.num_inputs
        &&& forall|q: int, l: int| 0 <= q < self.num_states && 0 <= l < self.num_inputs ==>
            #[trigger] self.transition_matrix@[q]@[l] < self.num_states
    }

    pub closed spec fn states(self) -> nat {
        self.num_states as nat
    }

    pub closed spec fn inputs(self) -> nat {
        self.num_inputs as nat
    }

    pub closed spec fn initial(self) -> int {
        self.initial_state as int
    }

    /// The state entered from `q` by symbol `l`.
    pub closed spec fn next(self, q: int, l: int) -> int {
        self.transition_matrix@[q]@[l] as int
    }

    /// The cost added by reading symbol `l` in state `q`.
    pub closed spec fn cost(self, q: int, l: int) -> int {
        self.inc@[q]@[l] as int
    }

    /// No transition costs more than this.
    pub closed spec fn max_cost(self) -> nat {
        table_max(self.inc@)
    }

    /// The largest transition cost is that of some transition, or 0.
    pub proof fn lemma_max_cost_attained(self)
        requires
            self.wf(),
        ensures
            self.max_cost() == 0 || exists|q: int, l: int| 0 <= q < self.states() && 0 <= l < self.inputs()
                && #[trigger] self.cost(q, l) == self.max_cost(),
    {
        lemma_table_max_attained(self.inc@);
        if self.max_cost() != 0 {
            let (q, l) = choose|q: int, l: int| 0 <= q < self.inc@.len() && 0 <= l < self.inc@[q]@.len()
                && self.inc@[q]@[l] == table_max(self.inc@);
            assert(self.cost(q, l) == self.max_cost());
        }
    }

    /// The facts of a well-formed counting DFA.
    pub proof fn lemma_wf(self)
        requires
            self.wf(),
        ensures
            0 <= self.initial() < self.states(),
            self.states() <= u32::MAX,
            self.inputs() <= u32::MAX,
            forall|q: int, l: int| 0 <= q < self.states() && 0 <= l < self.inputs() ==>
                0 <= #[trigger] self.next(q, l) < self.states(),
            forall|q: int, l: int| 0 <= q < self.states() && 0 <= l < self.inputs() ==>
                0 <= #[trigger] self.cost(q, l) <= self.max_cost(),
    {
        assert forall|q: int, l: int| 0 <= q < self.states() && 0 <= l < self.inputs() implies
            0 <= #[trigger] self.cost(q, l) <= self.max_cost() by {
            lemma_table_max(self.inc@, q, l);
        }
    }

    pub fn num_states(&self) -> (n: u32)
        ensures
            n == self.states(),
    {
        self.num_states
    }

    pub fn num_inputs(&self) -> (n: u32)
        ensures
            n == self.inputs(),
    {
        self.num_inputs
    }

    pub fn initial_state(&self) -> (q: u32)
        ensures
            q == self.initial(),
    {
        self.initial_state
    }

    /// The state entered from `q` by symbol `l`.
    pub fn next_state(&self, q: u32, l: usize) -> (r: u32)
        requires
            self.wf(),
            q < self.states(),
            l < self.inputs(),
        ensures
            r == self.next(q as int, l as int),
    {
        self.transition_matrix[q as usize][l]
    }

    /// The cost added by reading symbol `l` in state `q`.
    pub fn step_cost(&self, q: u32, l: usize) -> (r: u32)
        requires
            self.wf(),
            q < self.states(),
            l < self.inputs(),
        ensures
            r == self.cost(q as int, l as int),
    {
        self.inc[q as usize][l]
    }

    /// Builds the counting DFA from the declared part of its 1-based description:
    /// states and the initial state are shifted down by one, costs are taken as
    /// they are.
    pub fn new(
        num_states: u32,
        num_inputs: u32,
        transition_matrix: &Vec<Vec<i32>>,
        initial_state: i32,
        inc: &Vec<Vec<i32>>,
    ) -> (c: Cdfa)
        requires
            valid_description(num_states, num_inputs, transition_matrix@, initial_state, inc@),
        ensures
            c.wf(),
            c.states() == num_states,
            c.inputs() == num_inputs,
            c.initial() == initial_state - 1,
            forall|q: int, l: int| 0 <= q < num_states && 0 <= l < num_inputs ==>
                #[trigger] c.next(q, l) == transition_matrix@[q]@[l] - 1,
            forall|q: int, l: int| 0 <= q < num_states && 0 <= l < num_inputs ==>
                #[trigger] c.cost(q, l) == inc@[q]@[l],
    {
        let mut matrix: Vec<Vec<u32>> = Vec::new();
        let mut costs: Vec<Vec<u32>> = Vec::new();
        let mut q: usize = 0;
        while q < num_states as usize
            invariant
                valid_description(num_states, num_inputs, transition_matrix@, initial_state, inc@),
                q <= num_states,
                matrix@.len() == q,
                costs@.len() == q,
                forall|r: int| 0 <= r < q ==> (#[trigger] matrix@[r])@.len() == num_inputs,
                forall|r: int| 0 <= r < q ==> (#[trigger] costs@[r])@.len() == num_inputs,
                forall|r: int, l: int| 0 <= r < q && 0 <= l < num_inputs ==>
                    #[trigger] matrix@[r]@[l] == transition_matrix@[r]@[l] - 1,
                forall|r: int, l: int| 0 <= r < q && 0 <= l < num_inputs ==>
                    #[trigger] costs@[r]@[l] == inc@[r]@[l],
            decreases num_states - q,
        {
            let row = &transition_matrix[q];
            let cost_row = &inc[q];
            let mut out: Vec<u32> = Vec::new();
            let mut out_costs: Vec<u32> = Vec::new();
            let mut l: usize = 0;
            while l < num_inputs as usize
                invariant
                    valid_description(num_states, num_inputs, transition_matrix@, initial_state, inc@),
                    q < num_states,
                    row@ == transition_matrix@[q as int]@,
                    cost_row@ == inc@[q as int]@,
                    l <= num_inputs,
                    out@.len() == l,
                    out_costs@.len() == l,
                    forall|k: int| 0 <= k < l ==> #[trigger] out@[k] == row@[k] - 1,
                    forall|k: int| 0 <= k < l ==> #[trigger] out_costs@[k] == cost_row@[k],
                decreases num_inputs - l,
            {
                out.push((row[l] - 1) as u32);
                out_costs.push(cost_row[l] as u32);
                l = l + 1;
            }
            matrix.push(out);
            costs.push(out_costs);
            q = q + 1;
        }
        Cdfa {
            num_states,
            num_inputs,
            transition_matrix: matrix,
            initial_state: (initial_state - 1) as u32,
            inc: costs,
        }
    }
}

/// The state reached from `q` by reading the symbols of `w`.
pub open spec fn run_end(c: Cdfa, q: int, w: Seq<usize>) -> int
    decreases w.len(),
{
    if w.len() == 0 {
        q
    } else {
        c.next(run_end(c, q, w.drop_last()), w.last() as int)
    }
}

/// The cost of reading the symbols of `w` from `q`.
pub open spec fn run_cost(c: Cdfa, q: int, w: Seq<usize>) -> int
    decreases w.len(),
{
    if w.len() == 0 {
        0
    } else {
        run_cost(c, q, w.drop_last()) + c.cost(run_end(c, q, w.drop_last()), w.last() as int)
    }
}

/// After its first symbol, reading `w` from `q` never enters state 0.
pub open spec fn avoids_first_state(c: Cdfa, q: int, w: Seq<usize>) -> bool {
    forall|k: int| 1 <= k <= w.len() ==> #[trigger] run_end(c, q, w.take(k)) != 0
}

/// Each symbol of `w` is allowed at its position, the first being position `from`.
pub open spec fn word_within(symbols: Seq<Seq<usize>>, from: int, w: Seq<usize>) -> bool {
    forall|j: int| 0 <= j < w.len() ==> #[trigger] symbols[from + j].contains(w[j])
}

/// Every allowed symbol is a symbol of the automaton.
pub open spec fn symbols_valid(c: Cdfa, symbols: Seq<Seq<usize>>) -> bool {
    forall|i: int, k: int| 0 <= i < symbols.len() && 0 <= k < symbols[i].len() ==>
        #[trigger] symbols[i][k] < c.inputs()
}

/// `w` reads the first `i` variables, with allowed symbols, from the initial
/// state into `q` (never entering state 0 after the start when `avoid` is set).
pub open spec fn fwd_word(c: Cdfa, symbols: Seq<Seq<usize>>, avoid: bool, i: nat, q: int, w: Seq<usize>) -> bool {
    &&& w.len() == i
    &&& word_within(symbols, 0, w)
    &&& avoid ==> avoids_first_state(c, c.initial(), w)
    &&& run_end(c, c.initial(), w) == q
}

/// `q` is reached after the first `i` variables.
pub open spec fn reaches(c: Cdfa, symbols: Seq<Seq<usize>>, avoid: bool, i: nat, q: int) -> bool {
    exists|w: Seq<usize>| #[trigger] fwd_word(c, symbols, avoid, i, q, w)
}

/// The costs at which `q` is reached after the first `i` variables.
pub open spec fn fwd_costs(c: Cdfa, symbols: Seq<Seq<usize>>, avoid: bool, i: nat, q: int) -> Set<int> {
    Set::new(|x: int| exists|w: Seq<usize>| #[trigger] fwd_word(c, symbols, avoid, i, q, w) && run_cost(c, c.initial(), w) == x)
}

/// `u` reads the variables from position `l` on, with allowed symbols, from the
/// state `p` into a state reached after all of them (with `avoid`: `p`, unless
/// past the last variable, and the states entered are not state 0).
pub open spec fn bwd_word(c: Cdfa, symbols: Seq<Seq<usize>>, avoid: bool, l: nat, p: int, u: Seq<usize>) -> bool {
    &&& l + u.len() == symbols.len()
    &&& word_within(symbols, l as int, u)
    &&& 0 <= p < c.states()
    &&& avoid ==> (l < symbols.len() ==> p != 0) && avoids_first_state(c, p, u)
    &&& reaches(c, symbols, avoid, symbols.len(), run_end(c, p, u))
}

/// From `p` at position `l`, the remaining variables can be read.
pub open spec fn co_reaches(c: Cdfa, symbols: Seq<Seq<usize>>, avoid: bool, l: nat, p: int) -> bool {
    exists|u: Seq<usize>| #[trigger] bwd_word(c, symbols, avoid, l, p, u)
}

/// The costs of reading the remaining variables from `p` at position `l`.
pub open spec fn bwd_costs(c: Cdfa, symbols: Seq<Seq<usize>>, avoid: bool, l: nat, p: int) -> Set<int> {
    Set::new(|x: int| exists|u: Seq<usize>| #[trigger] bwd_word(c, symbols, avoid, l, p, u) && run_cost(c, p, u) == x)
}

/// Which extreme of a set of costs is wanted.
#[derive(Clone, Copy, Debug, PartialEq, Eq)]
pub enum Bound {
    Min,
    Max,
}

/// `x` is at least as good as `y` for the bound.
pub open spec fn no_worse(bound: Bound, x: int, y: int) -> bool {
    match bound {
        Bound::Min => x <= y,
        Bound::Max => x >= y,
    }
}

/// `x` is the best element of `s` for the bound.
pub open spec fn is_best(bound: Bound, s: Set<int>, x: int) -> bool {
    s.contains(x) && forall|y: int| #[trigger] s.contains(y) ==> no_worse(bound, x, y)
}

// ------------------------------------------------------------------ runs

/// Reading one more symbol.
pub proof fn lemma_run_push(c: Cdfa, q: int, w: Seq<usize>, l: usize)
    ensures
        run_end(c, q, w.push(l)) == c.next(run_end(c, q, w), l as int),
        run_cost(c, q, w.push(l)) == run_cost(c, q, w) + c.cost(run_end(c, q, w), l as int),
{
    assert(w.push(l).drop_last() == w);
}

/// Reading `a` then `b` from `q` ends where reading `b` from the end of `a`
/// ends, at the sum of the two costs.
pub proof fn lemma_run_concat(c: Cdfa, q: int, a: Seq<usize>, b: Seq<usize>)
    ensures
        run_end(c, q, a + b) == run_end(c, run_end(c, q, a), b),
        run_cost(c, q, a + b) == run_cost(c, q, a) + run_cost(c, run_end(c, q, a), b),
    decreases b.len(),
{
    if b.len() == 0 {
        assert(a + b == a);
    } else {
        lemma_run_concat(c, q, a, b.drop_last());
        assert((a + b).drop_last() == a + b.drop_last());
        assert((a + b).last() == b.last());
    }
}

/// Reading a symbol first, then the rest.
pub proof fn lemma_run_prepend(c: Cdfa, q: int, l: usize, u: Seq<usize>)
    ensures
        run_end(c, q, seq![l] + u) == run_end(c, c.next(q, l as int), u),
        run_cost(c, q, seq![l] + u) == c.cost(q, l as int) + run_cost(c, c.next(q, l as int), u),
    decreases u.len(),
{
    let v = seq![l] + u;
    let q2 = c.next(q, l as int);
    if u.len() == 0 {
        assert(v == seq![l]);
        assert(v.drop_last() == Seq::<usize>::empty());
        assert(run_end(c, q, v) == c.next(run_end(c, q, v.drop_last()), v.last() as int));
        assert(run_cost(c, q, v) == run_cost(c, q, v.drop_last()) + c.cost(run_end(c, q, v.drop_last()), v.last() as int));
    } else {
        lemma_run_prepend(c, q, l, u.drop_last());
        assert(v.drop_last() == seq![l] + u.drop_last());
        assert(v.last() == u.last());
        assert(run_end(c, q, v) == c.next(run_end(c, q, v.drop_last()), v.last() as int));
        assert(run_end(c, q2, u) == c.next(run_end(c, q2, u.drop_last()), u.last() as int));
        assert(run_cost(c, q, v) == run_cost(c, q, v.drop_last()) + c.cost(run_end(c, q, v.drop_last()), v.last() as int));
        assert(run_cost(c, q2, u) == run_cost(c, q2, u.drop_last()) + c.cost(run_end(c, q2, u.drop_last()), u.last() as int));
    }
}

/// The prefixes of a word that avoids state 0 avoid it too, and one more
/// symbol keeps avoiding it when it does not enter state 0.
pub proof fn lemma_avoids_push(c: Cdfa, q: int, w: Seq<usize>, l: usize)
    ensures
        avoids_first_state(c, q, w.push(l)) <==>
            avoids_first_state(c, q, w) && run_end(c, q, w.push(l)) != 0,
{
    let v = w.push(l);
    assert forall|k: int| 1 <= k <= w.len() implies v.take(k) == w.take(k) by {}
    assert(v.take(v.len() as int) == v);
    if avoids_first_state(c, q, v) {
        assert forall|k: int| 1 <= k <= w.len() implies #[trigger] run_end(c, q, w.take(k)) != 0 by {
            assert(v.take(k) == w.take(k));
            assert(run_end(c, q, v.take(k)) != 0);
        }
        assert(run_end(c, q, v.take(v.len() as int)) != 0);
    }
    if avoids_first_state(c, q, w) && run_end(c, q, v) != 0 {
        assert forall|k: int| 1 <= k <= v.len() implies #[trigger] run_end(c, q, v.take(k)) != 0 by {
            if k <= w.len() {
                assert(v.take(k) == w.take(k));
            }
        }
    }
}

/// Avoiding state 0 after a first symbol.
pub proof fn lemma_avoids_prepend(c: Cdfa, q: int, l: usize, u: Seq<usize>)
    ensures
        avoids_first_state(c, q, seq![l] + u) <==>
            c.next(q, l as int) != 0 && avoids_first_state(c, c.next(q, l as int), u),
{
    let v = seq![l] + u;
    let q2 = c.next(q, l as int);
    assert forall|k: int| 1 <= k <= v.len() implies run_end(c, q, #[trigger] v.take(k)) == run_end(c, q2, u.take(k - 1)) by {
        assert(v.take(k) == seq![l] + u.take(k - 1));
        lemma_run_prepend(c, q, l, u.take(k - 1));
    }
    if avoids_first_state(c, q, v) {
        assert(run_end(c, q, v.take(1)) != 0);
        assert(u.take(0) == Seq::<usize>::empty());
        assert forall|k: int| 1 <= k <= u.len() implies #[trigger] run_end(c, q2, u.take(k)) != 0 by {
            assert(run_end(c, q, v.take(k + 1)) != 0);
        }
    }
    if q2 != 0 && avoids_first_state(c, q2, u) {
        assert forall|k: int| 1 <= k <= v.len() implies #[trigger] run_end(c, q, v.take(k)) != 0 by {
            if k == 1 {
                assert(u.take(0) == Seq::<usize>::empty());
            } else {
                assert(run_end(c, q2, u.take(k - 1)) != 0);
            }
        }
    }
}

/// The cost of a word is at most its length times the largest transition cost,
/// and every state it passes is a state of the automaton.
pub proof fn lemma_run_bounds(c: Cdfa, q: int, w: Seq<usize>)
    requires
        c.wf(),
        0 <= q < c.states(),
        forall|j: int| 0 <= j < w.len() ==> #[trigger] w[j] < c.inputs(),
    ensures
        0 <= run_end(c, q, w) < c.states(),
        0 <= run_cost(c, q, w) <= w.len() * c.max_cost(),
    decreases w.len(),
{
    c.lemma_wf();
    if w.len() > 0 {
        let v = w.drop_last();
        lemma_run_bounds(c, q, v);
        let l = w.last() as int;
        assert(w[w.len() - 1] < c.inputs());
        let e = run_end(c, q, v);
        assert(c.cost(e, l) <= c.max_cost());
        assert(run_cost(c, q, v) + c.cost(e, l) <= v.len() * c.max_cost() + c.max_cost());
        assert(v.len() * c.max_cost() + c.max_cost() == w.len() * c.max_cost()) by (nonlinear_arith)
            requires
                v.len() + 1 == w.len(),
        ;
    }
}

// ----------------------------------------------------------- forward step

/// The initial state is reached after no variable, at cost 0 only.
pub proof fn lemma_fwd_base(c: Cdfa, symbols: Seq<Seq<usize>>, avoid: bool, q: int, x: int)
    ensures
        fwd_costs(c, symbols, avoid, 0, q).contains(x) <==> q == c.initial() && x == 0,
        reaches(c, symbols, avoid, 0, q) <==> q == c.initial(),
{
    let e = Seq::<usize>::empty();
    if q == c.initial() {
        assert(fwd_word(c, symbols, avoid, 0, q, e));
    }
    if reaches(c, symbols, avoid, 0, q) {
        let w = choose|w: Seq<usize>| #[trigger] fwd_word(c, symbols, avoid, 0, q, w);
        assert(w == e);
    }
    if fwd_costs(c, symbols, avoid, 0, q).contains(x) {
        let w = choose|w: Seq<usize>| #[trigger] fwd_word(c, symbols, avoid, 0, q, w) && run_cost(c, c.initial(), w) == x;
        assert(w == e);
    }
}

/// Extending a word that reaches `p` by an allowed symbol reaches `next(p, l)`,
/// at the added cost.
pub proof fn lemma_fwd_extend(c: Cdfa, symbols: Seq<Seq<usize>>, avoid: bool, i: nat, p: int, l: usize, y: int)
    requires
        i < symbols.len(),
        fwd_costs(c, symbols, avoid, i, p).contains(y),
        symbols[i as int].contains(l),
        avoid ==> c.next(p, l as int) != 0,
    ensures
        fwd_costs(c, symbols, avoid, i + 1, c.next(p, l as int)).contains(y + c.cost(p, l as int)),
        reaches(c, symbols, avoid, i + 1, c.next(p, l as int)),
{
    let w = choose|w: Seq<usize>| #[trigger] fwd_word(c, symbols, avoid, i, p, w) && run_cost(c, c.initial(), w) == y;
    let v = w.push(l);
    lemma_run_push(c, c.initial(), w, l);
    lemma_avoids_push(c, c.initial(), w, l);
    assert(word_within(symbols, 0, v)) by {
        assert forall|j: int| 0 <= j < v.len() implies #[trigger] symbols[0 + j].contains(v[j]) by {
            if j < w.len() {
                assert(symbols[0 + j].contains(w[j]));
            }
        }
    }
    assert(fwd_word(c, symbols, avoid, i + 1, c.next(p, l as int), v));
}

/// A word reaching `q` after `i + 1` variables ends with an allowed symbol read
/// from a state reached after `i`, at the cost of the shorter word plus that step.
pub proof fn lemma_fwd_split(c: Cdfa, symbols: Seq<Seq<usize>>, avoid: bool, i: nat, q: int, x: int)
    requires
        i < symbols.len(),
        fwd_costs(c, symbols, avoid, i + 1, q).contains(x),
    ensures
        exists|p: int, l: usize| #[trigger] fwd_costs(c, symbols, avoid, i, p).contains(x - c.cost(p, l as int))
            && symbols[i as int].contains(l) && c.next(p, l as int) == q,
        avoid ==> q != 0,
{
    let v = choose|v: Seq<usize>| #[trigger] fwd_word(c, symbols, avoid, i + 1, q, v) && run_cost(c, c.initial(), v) == x;
    let w = v.drop_last();
    let l = v.last();
    assert(v == w.push(l));
    lemma_run_push(c, c.initial(), w, l);
    lemma_avoids_push(c, c.initial(), w, l);
    let p = run_end(c, c.initial(), w);
    assert(word_within(symbols, 0, w)) by {
        assert forall|j: int| 0 <= j < w.len() implies #[trigger] symbols[0 + j].contains(w[j]) by {
            assert(symbols[0 + j].contains(v[j]));
        }
    }
    assert(symbols[0 + i as int].contains(v[i as int]));
    assert(fwd_word(c, symbols, avoid, i, p, w));
    assert(fwd_costs(c, symbols, avoid, i, p).contains(x - c.cost(p, l as int)));
}

// ---------------------------------------------------------- backward step

/// Past the last variable, a state co-reaches at cost 0 exactly when it is a
/// state reached after all variables.
pub proof fn lemma_bwd_base(c: Cdfa, symbols: Seq<Seq<usize>>, avoid: bool, p: int, x: int)
    ensures
        bwd_costs(c, symbols, avoid, symbols.len(), p).contains(x) <==>
            0 <= p < c.states() && reaches(c, symbols, avoid, symbols.len(), p) && x == 0,
        co_reaches(c, symbols, avoid, symbols.len(), p) <==>
            0 <= p < c.states() && reaches(c, symbols, avoid, symbols.len(), p),
{
    let e = Seq::<usize>::empty();
    assert(avoids_first_state(c, p, e));
    if 0 <= p < c.states() && reaches(c, symbols, avoid, symbols.len(), p) {
        assert(bwd_word(c, symbols, avoid, symbols.len(), p, e));
    }
    if co_reaches(c, symbols, avoid, symbols.len(), p) {
        let u = choose|u: Seq<usize>| #[trigger] bwd_word(c, symbols, avoid, symbols.len(), p, u);
        assert(u == e);
    }
    if bwd_costs(c, symbols, avoid, symbols.len(), p).contains(x) {
        let u = choose|u: Seq<usize>| #[trigger] bwd_word(c, symbols, avoid, symbols.len(), p, u) && run_cost(c, p, u) == x;
        assert(u == e);
    }
}

/// Reading an allowed symbol from `p` into a state that co-reaches from the
/// next position co-reaches from `p`, at the added cost.
pub proof fn lemma_bwd_prepend(c: Cdfa, symbols: Seq<Seq<usize>>, avoid: bool, l: nat, p: int, s: usize, y: int)
    requires
        l < symbols.len(),
        bwd_costs(c, symbols, avoid, l + 1, c.next(p, s as int)).contains(y),
        symbols[l as int].contains(s),
        0 <= p < c.states(),
        avoid ==> p != 0,
    ensures
        bwd_costs(c, symbols, avoid, l, p).contains(c.cost(p, s as int) + y),
        co_reaches(c, symbols, avoid, l, p),
{
    let q = c.next(p, s as int);
    let u = choose|u: Seq<usize>| #[trigger] bwd_word(c, symbols, avoid, l + 1, q, u) && run_cost(c, q, u) == y;
    let v = seq![s] + u;
    lemma_run_prepend(c, p, s, u);
    lemma_avoids_prepend(c, p, s, u);
    assert(word_within(symbols, l as int, v)) by {
        assert forall|j: int| 0 <= j < v.len() implies #[trigger] symbols[l + j].contains(v[j]) by {
            if j > 0 {
                assert(v[j] == u[j - 1]);
                assert(symbols[(l + 1) + (j - 1)].contains(u[j - 1]));
            }
        }
    }
    if avoid {
        if l + 1 < symbols.len() {
            assert(q != 0);
        } else {
            assert(u.len() == 0);
            assert(run_end(c, q, u) == q);
            let w = choose|w: Seq<usize>| #[trigger] fwd_word(c, symbols, avoid, symbols.len(), q, w);
            assert(w.take(w.len() as int) == w);
            assert(run_end(c, c.initial(), w.take(w.len() as int)) != 0);
        }
    }
    assert(bwd_word(c, symbols, avoid, l, p, v));
}

/// A word read from `p` at position `l` starts with an allowed symbol, into a
/// state that co-reaches from the next position, at the remaining cost.
pub proof fn lemma_bwd_split(c: Cdfa, symbols: Seq<Seq<usize>>, avoid: bool, l: nat, p: int, x: int)
    requires
        c.wf(),
        symbols_valid(c, symbols),
        l < symbols.len(),
        bwd_costs(c, symbols, avoid, l, p).contains(x),
    ensures
        exists|s: usize| #[trigger] symbols[l as int].contains(s)
            && bwd_costs(c, symbols, avoid, l + 1, c.next(p, s as int)).contains(x - c.cost(p, s as int)),
        0 <= p < c.states(),
        avoid ==> p != 0,
{
    let v = choose|v: Seq<usize>| #[trigger] bwd_word(c, symbols, avoid, l, p, v) && run_cost(c, p, v) == x;
    let s = v[0];
    let u = v.drop_first();
    assert(v == seq![s] + u);
    lemma_run_prepend(c, p, s, u);
    lemma_avoids_prepend(c, p, s, u);
    let q = c.next(p, s as int);
    assert(symbols[l as int + 0].contains(v[0]));
    let l1: int = l + 1int;
    assert(word_within(symbols, l1, u)) by {
        assert forall|j: int| 0 <= j < u.len() implies #[trigger] symbols[l1 + j].contains(u[j]) by {
            let jj = j + 1;
            assert(v[jj] == u[j]);
            assert(symbols[l + jj].contains(v[jj]));
            assert(l + jj == l1 + j);
        }
    }
    c.lemma_wf();
    assert(symbols[l as int][symbols[l as int].index_of(s)] == s);
    assert(s < c.inputs());
    assert(bwd_word(c, symbols, avoid, l + 1, q, u));
}

} // verus!
