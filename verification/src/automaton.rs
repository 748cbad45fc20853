//! Deterministic and non-deterministic finite automata in the 1-based
//! convention of the `regular` constraint: states are numbered from 1, letters
//! are numbered from 1, and a target state of 0 (or below) means "no transition".

use vstd::prelude::*;

use crate::Letter;
use crate::layered_graph::Arc;

verus! {

/// The alphabet `1, 2, ..., num_inputs` (empty when `num_inputs` does not fit a letter).
pub open spec fn letters(num_inputs: u32) -> Seq<Letter> {
    let k: int = if num_inputs <= i32::MAX { num_inputs as int } else { 0 };
    Seq::new(k as nat, |i: int| (i + 1) as Letter)
}

/// The alphabet is increasing, so no letter occurs twice.
pub proof fn lemma_letters_increasing(num_inputs: u32)
    ensures
        forall|a: int, b: int| 0 <= a < b < letters(num_inputs).len() ==>
            #[trigger] letters(num_inputs)[a] < #[trigger] letters(num_inputs)[b],
        letters(num_inputs).no_duplicates(),
{
}

/// How a raw transition entry is stored: positive targets are kept, anything else is "none" (0).
pub open spec fn target_of(m: i32) -> usize {
    if m > 0 { m as usize } else { 0 }
}

/// The targets kept from a raw list of NFA targets: the positive ones, in order.
pub open spec fn targets_of(ms: Seq<i32>) -> Seq<usize>
    decreases ms.len(),
{
    if ms.len() == 0 {
        Seq::empty()
    } else {
        let rest = targets_of(ms.drop_last());
        if ms.last() > 0 { rest.push(ms.last() as usize) } else { rest }
    }
}

/// `s --a--> t` according to a raw DFA table in the 1-based convention.
pub open spec fn dfa_matrix_step(matrix: Seq<Vec<i32>>, num_inputs: u32, s: int, a: Letter, t: int) -> bool {
    &&& letters(num_inputs).contains(a)
    &&& 1 <= s <= matrix.len()
    &&& 1 <= a <= matrix[s - 1]@.len()
    &&& matrix[s - 1]@[a - 1] > 0
    &&& matrix[s - 1]@[a - 1] as int == t
}

/// `s --a--> t` according to a raw NFA table in the 1-based convention.
pub open spec fn nfa_matrix_step(matrix: Seq<Vec<Vec<i32>>>, num_inputs: u32, s: int, a: Letter, t: int) -> bool {
    &&& letters(num_inputs).contains(a)
    &&& 1 <= s <= matrix.len()
    &&& 1 <= a <= matrix[s - 1]@.len()
    &&& 0 < t <= i32::MAX
    &&& matrix[s - 1]@[a - 1]@.contains(t as i32)
}

/// The states named in a raw list, as integers (each entry taken `as usize`).
pub open spec fn state_set(states: Seq<i32>) -> Set<int> {
    states.map_values(|s: i32| s as usize as int).to_set()
}

/// The positive entries of `ms` are exactly the states kept.
pub proof fn lemma_targets_of(ms: Seq<i32>, u: usize)
    ensures
        targets_of(ms).contains(u) <==> exists|k: int| 0 <= k < ms.len() && ms[k] > 0 && #[trigger] ms[k] as usize == u,
    decreases ms.len(),
{
    if ms.len() > 0 {
        let rest = ms.drop_last();
        lemma_targets_of(rest, u);
        let tr = targets_of(rest);
        if ms.last() > 0 {
            let tp = tr.push(ms.last() as usize);
            assert(targets_of(ms) == tp);
            assert(tp.contains(u) <==> (tr.contains(u) || u == ms.last() as usize)) by {
                if tp.contains(u) && u != ms.last() as usize {
                    let i = choose|i: int| 0 <= i < tp.len() && #[trigger] tp[i] == u;
                    assert(tr[i] == u);
                }
                if tr.contains(u) {
                    let i = choose|i: int| 0 <= i < tr.len() && #[trigger] tr[i] == u;
                    assert(tp[i] == u);
                }
                assert(tp[tr.len() as int] == ms.last() as usize);
            }
        }
        if exists|k: int| 0 <= k < ms.len() && ms[k] > 0 && #[trigger] ms[k] as usize == u {
            let k = choose|k: int| 0 <= k < ms.len() && ms[k] > 0 && #[trigger] ms[k] as usize == u;
            if k < ms.len() - 1 {
                assert(rest[k] == ms[k]);
            }
        }
        if exists|k: int| 0 <= k < rest.len() && rest[k] > 0 && #[trigger] rest[k] as usize == u {
            let k = choose|k: int| 0 <= k < rest.len() && rest[k] > 0 && #[trigger] rest[k] as usize == u;
            assert(ms[k] == rest[k]);
        }
    }
}

/// A run of an automaton over `n` letters, written as the sequence of its
/// transitions: `p[j]` leaves layer `j` from `p[j].start_state` with letter
/// `p[j].letter` and reaches `p[j].end_state`.
pub open spec fn is_run(
    step: spec_fn(int, Letter, int) -> bool,
    start: int,
    n: nat,
    p: Seq<Arc>,
) -> bool {
    &&& p.len() == n
    &&& forall|j: int| 0 <= j < n ==> (#[trigger] p[j]).start_layer == j
    &&& forall|j: int| 0 <= j < n ==> step(p[j].start_state as int, p[j].letter, (#[trigger] p[j]).end_state as int)
    &&& n > 0 ==> p[0].start_state == start
    &&& forall|j: int| 0 <= j < n - 1 ==> (#[trigger] p[j]).end_state == p[j + 1].start_state
}

/// The state a run is in after `l` letters.
pub open spec fn run_state(start: int, p: Seq<Arc>, l: int) -> int {
    if l == 0 { start } else { p[l - 1].end_state as int }
}

/// A run over `n` letters that ends in an accepting state.
pub open spec fn is_accepting_run(
    step: spec_fn(int, Letter, int) -> bool,
    start: int,
    accepting: Set<int>,
    n: nat,
    p: Seq<Arc>,
) -> bool {
    &&& is_run(step, start, n, p)
    &&& accepting.contains(run_state(start, p, n as int))
}

/// The automaton can be in state `s` after reading `l` letters.
pub open spec fn reaches(step: spec_fn(int, Letter, int) -> bool, start: int, l: nat, s: int) -> bool {
    exists|q: Seq<Arc>| #[trigger] is_run(step, start, l, q) && run_state(start, q, l as int) == s
}

/// `q` reads letters `l..n` from state `s` (in layer `l`) into an accepting state.
pub open spec fn is_suffix_run(
    step: spec_fn(int, Letter, int) -> bool,
    accepting: Set<int>,
    n: nat,
    l: int,
    s: int,
    q: Seq<Arc>,
) -> bool {
    &&& l + q.len() == n
    &&& forall|k: int| 0 <= k < q.len() ==> (#[trigger] q[k]).start_layer == l + k
    &&& forall|k: int| 0 <= k < q.len() ==> step(q[k].start_state as int, q[k].letter, (#[trigger] q[k]).end_state as int)
    &&& q.len() > 0 ==> q[0].start_state == s
    &&& forall|k: int| 0 <= k < q.len() - 1 ==> (#[trigger] q[k]).end_state == q[k + 1].start_state
    &&& accepting.contains(if q.len() == 0 { s } else { q.last().end_state as int })
}

/// From state `s` in layer `l`, the remaining `n - l` letters can lead to acceptance.
pub open spec fn co_reaches(
    step: spec_fn(int, Letter, int) -> bool,
    accepting: Set<int>,
    n: nat,
    l: int,
    s: int,
) -> bool {
    exists|q: Seq<Arc>| #[trigger] is_suffix_run(step, accepting, n, l, s, q)
}

/// A run extended by one transition is a run.
pub proof fn lemma_run_push(step: spec_fn(int, Letter, int) -> bool, start: int, l: nat, q: Seq<Arc>, a: Arc)
    requires
        is_run(step, start, l, q),
        a.start_layer == l,
        a.start_state as int == run_state(start, q, l as int),
        step(a.start_state as int, a.letter, a.end_state as int),
    ensures
        is_run(step, start, l + 1, q.push(a)),
        run_state(start, q.push(a), l + 1int) == a.end_state as int,
{
    let r = q.push(a);
    assert forall|j: int| 0 <= j < l + 1 implies (#[trigger] r[j]).start_layer == j
        && step(r[j].start_state as int, r[j].letter, r[j].end_state as int) by {
        if j < l {
            assert(r[j] == q[j]);
        }
    }
    assert forall|j: int| 0 <= j < l + 1 - 1 implies (#[trigger] r[j]).end_state == r[j + 1].start_state by {
        assert(r[j] == q[j]);
        if j + 1 < l {
            assert(r[j + 1] == q[j + 1]);
        }
    }
    if l > 0 {
        assert(r[0] == q[0]);
    }
}

/// The last transition of a run leaves the state the run was in one letter earlier.
pub proof fn lemma_run_last(step: spec_fn(int, Letter, int) -> bool, start: int, l: nat, q: Seq<Arc>)
    requires
        is_run(step, start, l + 1, q),
    ensures
        is_run(step, start, l, q.drop_last()),
        q[l as int].start_layer == l,
        q[l as int].start_state as int == run_state(start, q.drop_last(), l as int),
        q[l as int].end_state as int == run_state(start, q, l + 1int),
        step(q[l as int].start_state as int, q[l as int].letter, q[l as int].end_state as int),
{
    let r = q.drop_last();
    assert forall|j: int| 0 <= j < l implies (#[trigger] r[j]).start_layer == j
        && step(r[j].start_state as int, r[j].letter, r[j].end_state as int) by {
        assert(r[j] == q[j]);
    }
    assert forall|j: int| 0 <= j < l - 1 implies (#[trigger] r[j]).end_state == r[j + 1].start_state by {
        assert(r[j] == q[j]);
        assert(r[j + 1] == q[j + 1]);
    }
    if l > 0 {
        assert(r[0] == q[0]);
        assert(q[l - 1].end_state == q[l as int].start_state);
    }
}

/// A transition followed by a suffix run is a suffix run.
pub proof fn lemma_suffix_prepend(
    step: spec_fn(int, Letter, int) -> bool,
    accepting: Set<int>,
    n: nat,
    a: Arc,
    q: Seq<Arc>,
)
    requires
        is_suffix_run(step, accepting, n, a.start_layer + 1, a.end_state as int, q),
        step(a.start_state as int, a.letter, a.end_state as int),
    ensures
        is_suffix_run(step, accepting, n, a.start_layer as int, a.start_state as int, seq![a] + q),
{
    let r = seq![a] + q;
    assert forall|k: int| 0 <= k < r.len() implies (#[trigger] r[k]).start_layer == a.start_layer + k
        && step(r[k].start_state as int, r[k].letter, r[k].end_state as int) by {
        if k > 0 {
            assert(r[k] == q[k - 1]);
        }
    }
    assert forall|k: int| 0 <= k < r.len() - 1 implies (#[trigger] r[k]).end_state == r[k + 1].start_state by {
        assert(r[k + 1] == q[k]);
        if k > 0 {
            assert(r[k] == q[k - 1]);
        }
    }
    if q.len() > 0 {
        assert(r.last() == q.last());
    }
}

/// A suffix run without its first transition is a suffix run from where that transition leads.
pub proof fn lemma_suffix_tail(
    step: spec_fn(int, Letter, int) -> bool,
    accepting: Set<int>,
    n: nat,
    l: int,
    s: int,
    q: Seq<Arc>,
)
    requires
        is_suffix_run(step, accepting, n, l, s, q),
        q.len() > 0,
    ensures
        is_suffix_run(step, accepting, n, l + 1, q[0].end_state as int, q.drop_first()),
        q[0].start_layer == l,
        q[0].start_state == s,
        step(s, q[0].letter, q[0].end_state as int),
{
    let r = q.drop_first();
    assert forall|k: int| 0 <= k < r.len() implies (#[trigger] r[k]).start_layer == l + 1 + k
        && step(r[k].start_state as int, r[k].letter, r[k].end_state as int) by {
        assert(r[k] == q[k + 1]);
    }
    assert forall|k: int| 0 <= k < r.len() - 1 implies (#[trigger] r[k]).end_state == r[k + 1].start_state by {
        assert(r[k] == q[k + 1]);
        assert(r[k + 1] == q[k + 2]);
    }
    if r.len() > 0 {
        assert(r[0] == q[1]);
        assert(q[0].end_state == q[1].start_state);
        assert(r.last() == q.last());
    }
}

/// A run to `s` followed by a suffix run from `s` is an accepting run.
pub proof fn lemma_join_runs(
    step: spec_fn(int, Letter, int) -> bool,
    start: int,
    accepting: Set<int>,
    n: nat,
    l: nat,
    pre: Seq<Arc>,
    suf: Seq<Arc>,
)
    requires
        is_run(step, start, l, pre),
        is_suffix_run(step, accepting, n, l as int, run_state(start, pre, l as int), suf),
    ensures
        is_accepting_run(step, start, accepting, n, pre + suf),
        (pre + suf).take(l as int) == pre,
        (pre + suf).skip(l as int) == suf,
{
    let p = pre + suf;
    assert forall|j: int| 0 <= j < n implies (#[trigger] p[j]).start_layer == j
        && step(p[j].start_state as int, p[j].letter, p[j].end_state as int) by {
        if j < l {
            assert(p[j] == pre[j]);
        } else {
            assert(p[j] == suf[j - l]);
        }
    }
    assert forall|j: int| 0 <= j < n - 1 implies (#[trigger] p[j]).end_state == p[j + 1].start_state by {
        if j + 1 < l {
            assert(p[j] == pre[j]);
            assert(p[j + 1] == pre[j + 1]);
        } else if j + 1 == l {
            assert(p[j] == pre[j]);
            assert(p[j + 1] == suf[0]);
        } else {
            assert(p[j] == suf[j - l]);
            assert(p[j + 1] == suf[j + 1 - l]);
        }
    }
    if n > 0 {
        if l > 0 {
            assert(p[0] == pre[0]);
        } else {
            assert(p[0] == suf[0]);
        }
    }
    if suf.len() > 0 {
        assert(p[n - 1] == suf.last());
    }
    assert(p.take(l as int) =~= pre);
    assert(p.skip(l as int) =~= suf);
}

/// An accepting run splits, after `l` letters, into a run and a suffix run.
pub proof fn lemma_split_run(
    step: spec_fn(int, Letter, int) -> bool,
    start: int,
    accepting: Set<int>,
    n: nat,
    p: Seq<Arc>,
    l: nat,
)
    requires
        is_accepting_run(step, start, accepting, n, p),
        l <= n,
    ensures
        is_run(step, start, l, p.take(l as int)),
        run_state(start, p.take(l as int), l as int) == run_state(start, p, l as int),
        is_suffix_run(step, accepting, n, l as int, run_state(start, p, l as int), p.skip(l as int)),
{
    let pre = p.take(l as int);
    let suf = p.skip(l as int);
    assert forall|j: int| 0 <= j < l implies (#[trigger] pre[j]).start_layer == j
        && step(pre[j].start_state as int, pre[j].letter, pre[j].end_state as int) by {
        assert(pre[j] == p[j]);
    }
    assert forall|j: int| 0 <= j < l - 1 implies (#[trigger] pre[j]).end_state == pre[j + 1].start_state by {
        assert(pre[j] == p[j]);
        assert(pre[j + 1] == p[j + 1]);
    }
    if l > 0 {
        assert(pre[0] == p[0]);
        assert(pre[l - 1] == p[l - 1]);
    }
    assert forall|k: int| 0 <= k < suf.len() implies (#[trigger] suf[k]).start_layer == l + k
        && step(suf[k].start_state as int, suf[k].letter, suf[k].end_state as int) by {
        assert(suf[k] == p[l + k]);
    }
    assert forall|k: int| 0 <= k < suf.len() - 1 implies (#[trigger] suf[k]).end_state == suf[k + 1].start_state by {
        assert(suf[k] == p[l + k]);
        assert(suf[k + 1] == p[l + k + 1]);
    }
    if suf.len() > 0 {
        assert(suf[0] == p[l as int]);
        if l > 0 {
            assert(p[l - 1].end_state == p[l as int].start_state);
        }
        assert(suf.last() == p[n - 1]);
    }
}

/// A deterministic finite automaton over letters.
#[derive(Debug, Clone)]
pub struct DFA {
    pub states: usize,
    /// The letters, `1..=num_inputs`.
    pub alphabet: Vec<Letter>,
    /// `transitions[q - 1][a - 1]` is the state reached from state `q` by letter `a`, 0 for none.
    pub transitions: Vec<Vec<usize>>,
    pub starting_state: usize,
    /// The accepting states, each once.
    pub accepting_states: Vec<usize>,
}

impl DFA {
    /// The state reached from `s` by `a`, if the transition table defines one.
    pub open spec fn delta(self, s: int, a: Letter) -> Option<int> {
        if 1 <= s <= self.transitions@.len() && 1 <= a <= self.transitions@[s - 1]@.len()
            && self.transitions@[s - 1]@[a - 1] != 0 {
            Some(self.transitions@[s - 1]@[a - 1] as int)
        } else {
            None
        }
    }

    /// `s --a--> t` is a transition of the automaton (the letter in the alphabet).
    pub open spec fn step(self, s: int, a: Letter, t: int) -> bool {
        self.alphabet@.contains(a) && self.delta(s, a) == Some(t)
    }

    pub open spec fn step_fn(self) -> spec_fn(int, Letter, int) -> bool {
        |s: int, a: Letter, t: int| self.step(s, a, t)
    }

    pub open spec fn accepting_set(self) -> Set<int> {
        self.accepting_states@.to_set().map(|s: usize| s as int)
    }

    /// `p` is an accepting run of this automaton over `n` letters.
    pub open spec fn accepts_run(self, n: nat, p: Seq<Arc>) -> bool {
        is_accepting_run(self.step_fn(), self.starting_state as int, self.accepting_set(), n, p)
    }

    /// `self` is what `from` builds of this description: its sizes, letters and
    /// start, the transitions the table lists and the accepting states named.
    pub open spec fn built_from(
        self,
        num_states: u32,
        num_inputs: u32,
        transition_matrix: Seq<Vec<i32>>,
        initial_state: i32,
        accepting_states: Seq<i32>,
    ) -> bool {
        &&& self.states == num_states
        &&& self.alphabet@ == letters(num_inputs)
        &&& self.starting_state == initial_state as usize
        &&& self.transitions@.len() == transition_matrix.len()
        &&& forall|q: int| 0 <= q < transition_matrix.len() ==>
            (#[trigger] self.transitions@[q])@ == transition_matrix[q]@.map_values(|m: i32| target_of(m))
        &&& forall|s: int, a: Letter, t: int| #[trigger] self.step(s, a, t) <==> dfa_matrix_step(transition_matrix, num_inputs, s, a, t)
        &&& self.accepting_set() == state_set(accepting_states)
    }

    /// Builds a DFA from the 1-based description of the `regular` constraint:
    /// `transition_matrix[q - 1][a - 1]` is the state reached from `q` by letter `a`,
    /// where 0 (the failure state) means no transition.
    pub fn from(
        num_states: u32,
        num_inputs: u32,
        transition_matrix: Vec<Vec<i32>>,
        initial_state: i32,
        accepting_states: Vec<i32>,
    ) -> (dfa: DFA)
        ensures
            dfa.states == num_states,
            dfa.alphabet@ == letters(num_inputs),
            dfa.transitions@.len() == transition_matrix@.len(),
            forall|q: int| 0 <= q < transition_matrix@.len() ==>
                (#[trigger] dfa.transitions@[q])@ == transition_matrix@[q]@.map_values(|m: i32| target_of(m)),
            dfa.starting_state == initial_state as usize,
            dfa.accepting_states@.no_duplicates(),
            dfa.accepting_states@.to_set() == accepting_states@.map_values(|s: i32| s as usize).to_set(),
            forall|s: int, a: Letter, t: int| #[trigger] dfa.step(s, a, t) <==> dfa_matrix_step(transition_matrix@, num_inputs, s, a, t),
            dfa.accepting_set() == state_set(accepting_states@),
            dfa.built_from(num_states, num_inputs, transition_matrix@, initial_state, accepting_states@),
    {
        let alphabet = alphabet_vec(num_inputs);
        let mut transitions: Vec<Vec<usize>> = Vec::new();
        let mut q: usize = 0;
        while q < transition_matrix.len()
            invariant
                q <= transition_matrix@.len(),
                transitions@.len() == q,
                forall|r: int| 0 <= r < q ==>
                    (#[trigger] transitions@[r])@ == transition_matrix@[r]@.map_values(|m: i32| target_of(m)),
            decreases transition_matrix@.len() - q,
        {
            let row = &transition_matrix[q];
            let mut out: Vec<usize> = Vec::new();
            let mut a: usize = 0;
            while a < row.len()
                invariant
                    a <= row@.len(),
                    out@ == row@.take(a as int).map_values(|m: i32| target_of(m)),
                decreases row@.len() - a,
            {
                let m = row[a];
                let t: usize = if m > 0 { m as usize } else { 0 };
                out.push(t);
                proof {
                    assert(row@.take(a + 1).drop_last() =~= row@.take(a as int));
                }
                a = a + 1;
                assert(out@ =~= row@.take(a as int).map_values(|m: i32| target_of(m)));
            }
            assert(row@.take(row@.len() as int) =~= row@);
            transitions.push(out);
            q = q + 1;
        }
        let accepting = distinct_states(&accepting_states);
        let dfa = DFA {
            states: num_states as usize,
            alphabet,
            transitions,
            starting_state: initial_state as usize,
            accepting_states: accepting,
        };
        proof {
            assert forall|s: int, a: Letter, t: int| #[trigger] dfa.step(s, a, t) <==> dfa_matrix_step(transition_matrix@, num_inputs, s, a, t) by {
                if 1 <= s <= transition_matrix@.len() {
                    let row = dfa.transitions@[s - 1];
                    assert(row@ == transition_matrix@[s - 1]@.map_values(|m: i32| target_of(m)));
                    if 1 <= a <= row@.len() {
                        assert(row@[a - 1] == target_of(transition_matrix@[s - 1]@[a - 1]));
                    }
                }
            }
            lemma_accepting_views(dfa.accepting_states@, accepting_states@);
        }
        dfa
    }
}

/// A non-deterministic finite automaton over letters.
#[derive(Debug, Clone)]
pub struct NFA {
    pub states: usize,
    /// The letters, `1..=num_inputs`.
    pub alphabet: Vec<Letter>,
    /// `transitions[q - 1][a - 1]` lists the states reached from state `q` by letter `a`.
    pub transitions: Vec<Vec<Vec<usize>>>,
    pub starting_state: usize,
    /// The accepting states, each once.
    pub accepting_states: Vec<usize>,
}

impl NFA {
    /// The states listed as reached from `s` by `a`.
    pub open spec fn succ(self, s: int, a: Letter) -> Seq<usize> {
        if 1 <= s <= self.transitions@.len() && 1 <= a <= self.transitions@[s - 1]@.len() {
            self.transitions@[s - 1]@[a - 1]@
        } else {
            Seq::empty()
        }
    }

    /// `s --a--> t` is a transition of the automaton (the letter in the alphabet).
    pub open spec fn step(self, s: int, a: Letter, t: int) -> bool {
        self.alphabet@.contains(a) && exists|k: int| 0 <= k < self.succ(s, a).len() && #[trigger] self.succ(s, a)[k] as int == t
    }

    pub open spec fn step_fn(self) -> spec_fn(int, Letter, int) -> bool {
        |s: int, a: Letter, t: int| self.step(s, a, t)
    }

    pub open spec fn accepting_set(self) -> Set<int> {
        self.accepting_states@.to_set().map(|s: usize| s as int)
    }

    /// `p` is an accepting run of this automaton over `n` letters.
    pub open spec fn accepts_run(self, n: nat, p: Seq<Arc>) -> bool {
        is_accepting_run(self.step_fn(), self.starting_state as int, self.accepting_set(), n, p)
    }

    /// The states listed as reached from `s` by `a` (none if the table has no such entry).
    pub fn targets(&self, s: usize, a: Letter) -> (r: Vec<usize>)
        ensures
            r@ == self.succ(s as int, a),
    {
        if 1 <= s && s <= self.transitions.len() && 1 <= a {
            let row = &self.transitions[s - 1];
            let ai = (a - 1) as usize;
            if ai < row.len() {
                return row[ai].clone();
            }
        }
        Vec::new()
    }

    /// `self` is what `from` builds of this description: its sizes, letters and
    /// start, the transitions the table lists and the accepting states named.
    pub open spec fn built_from(
        self,
        num_states: u32,
        num_inputs: u32,
        transition_matrix: Seq<Vec<Vec<i32>>>,
        initial_state: i32,
        accepting_states: Seq<i32>,
    ) -> bool {
        &&& self.states == num_states
        &&& self.alphabet@ == letters(num_inputs)
        &&& self.starting_state == initial_state as usize
        &&& self.transitions@.len() == transition_matrix.len()
        &&& forall|q: int| 0 <= q < transition_matrix.len() ==>
            (#[trigger] self.transitions@[q])@.len() == transition_matrix[q]@.len()
        &&& forall|q: int, a: int| 0 <= q < transition_matrix.len() && 0 <= a < transition_matrix[q]@.len() ==>
            (#[trigger] self.transitions@[q]@[a])@ == targets_of(transition_matrix[q]@[a]@)
        &&& forall|s: int, a: Letter, t: int| #[trigger] self.step(s, a, t) <==> nfa_matrix_step(transition_matrix, num_inputs, s, a, t)
        &&& self.accepting_set() == state_set(accepting_states)
    }

    /// Builds an NFA from the 1-based description of the `regular_nfa` constraint:
    /// `transition_matrix[q - 1][a - 1]` lists the states reached from `q` by letter `a`;
    /// entries of 0 or below name no state and are left out.
    pub fn from(
        num_states: u32,
        num_inputs: u32,
        transition_matrix: Vec<Vec<Vec<i32>>>,
        initial_state: i32,
        accepting_states: Vec<i32>,
    ) -> (nfa: NFA)
        ensures
            nfa.states == num_states,
            nfa.alphabet@ == letters(num_inputs),
            nfa.transitions@.len() == transition_matrix@.len(),
            forall|q: int| 0 <= q < transition_matrix@.len() ==>
                (#[trigger] nfa.transitions@[q])@.len() == transition_matrix@[q]@.len(),
            forall|q: int, a: int| 0 <= q < transition_matrix@.len() && 0 <= a < transition_matrix@[q]@.len() ==>
                (#[trigger] nfa.transitions@[q]@[a])@ == targets_of(transition_matrix@[q]@[a]@),
            nfa.starting_state == initial_state as usize,
            nfa.accepting_states@.no_duplicates(),
            nfa.accepting_states@.to_set() == accepting_states@.map_values(|s: i32| s as usize).to_set(),
            forall|s: int, a: Letter, t: int| #[trigger] nfa.step(s, a, t) <==> nfa_matrix_step(transition_matrix@, num_inputs, s, a, t),
            nfa.accepting_set() == state_set(accepting_states@),
            nfa.built_from(num_states, num_inputs, transition_matrix@, initial_state, accepting_states@),
    {
        let alphabet = alphabet_vec(num_inputs);
        let mut transitions: Vec<Vec<Vec<usize>>> = Vec::new();
        let mut q: usize = 0;
        while q < transition_matrix.len()
            invariant
                q <= transition_matrix@.len(),
                transitions@.len() == q,
                forall|r: int| 0 <= r < q ==>
                    (#[trigger] transitions@[r])@.len() == transition_matrix@[r]@.len(),
                forall|r: int, a: int| 0 <= r < q && 0 <= a < transition_matrix@[r]@.len() ==>
                    (#[trigger] transitions@[r]@[a])@ == targets_of(transition_matrix@[r]@[a]@),
            decreases transition_matrix@.len() - q,
        {
            let row = &transition_matrix[q];
            let mut out: Vec<Vec<usize>> = Vec::new();
            let mut a: usize = 0;
            while a < row.len()
                invariant
                    a <= row@.len(),
                    out@.len() == a,
                    forall|b: int| 0 <= b < a ==> (#[trigger] out@[b])@ == targets_of(row@[b]@),
                decreases row@.len() - a,
            {
                out.push(positive_targets(&row[a]));
                a = a + 1;
            }
            transitions.push(out);
            q = q + 1;
        }
        let accepting = distinct_states(&accepting_states);
        let nfa = NFA {
            states: num_states as usize,
            alphabet,
            transitions,
            starting_state: initial_state as usize,
            accepting_states: accepting,
        };
        proof {
            assert forall|s: int, a: Letter, t: int| #[trigger] nfa.step(s, a, t) <==> nfa_matrix_step(transition_matrix@, num_inputs, s, a, t) by {
                if 1 <= s <= transition_matrix@.len() && 1 <= a <= transition_matrix@[s - 1]@.len() {
                    let ms = transition_matrix@[s - 1]@[a - 1]@;
                    assert(nfa.succ(s, a) == targets_of(ms));
                    if nfa.step(s, a, t) {
                        let k = choose|k: int| 0 <= k < nfa.succ(s, a).len() && #[trigger] nfa.succ(s, a)[k] as int == t;
                        let u = nfa.succ(s, a)[k];
                        assert(targets_of(ms).contains(u));
                        lemma_targets_of(ms, u);
                        let m = choose|m: int| 0 <= m < ms.len() && ms[m] > 0 && #[trigger] ms[m] as usize == u;
                        assert(ms[m] as int == t);
                        assert(ms.contains(t as i32));
                    }
                    if nfa_matrix_step(transition_matrix@, num_inputs, s, a, t) {
                        let m = choose|m: int| 0 <= m < ms.len() && ms[m] == t as i32;
                        lemma_targets_of(ms, t as usize);
                        assert(ms[m] > 0 && ms[m] as usize == t as usize);
                        assert(targets_of(ms).contains(t as usize));
                        let k = choose|k: int| 0 <= k < targets_of(ms).len() && targets_of(ms)[k] == t as usize;
                        assert(nfa.succ(s, a)[k] as int == t);
                    }
                }
            }
            lemma_accepting_views(nfa.accepting_states@, accepting_states@);
        }
        nfa
    }
}

impl DFA {
    /// The same automaton with each transition written as a one-element target list.
    pub fn to_nfa(&self) -> (nfa: NFA)
        ensures
            nfa.states == self.states,
            nfa.alphabet@ == self.alphabet@,
            nfa.starting_state == self.starting_state,
            nfa.accepting_states@ == self.accepting_states@,
            forall|s: int, a: Letter, t: int| nfa.step(s, a, t) <==> self.step(s, a, t),
    {
        let mut transitions: Vec<Vec<Vec<usize>>> = Vec::new();
        let mut q: usize = 0;
        while q < self.transitions.len()
            invariant
                q <= self.transitions@.len(),
                transitions@.len() == q,
                forall|r: int| 0 <= r < q ==>
                    (#[trigger] transitions@[r])@.len() == self.transitions@[r]@.len(),
                forall|r: int, a: int| 0 <= r < q && 0 <= a < self.transitions@[r]@.len() ==>
                    (#[trigger] transitions@[r]@[a])@ == (if self.transitions@[r]@[a] != 0 {
                        seq![self.transitions@[r]@[a]]
                    } else {
                        Seq::<usize>::empty()
                    }),
            decreases self.transitions@.len() - q,
        {
            let row = &self.transitions[q];
            let mut out: Vec<Vec<usize>> = Vec::new();
            let mut a: usize = 0;
            while a < row.len()
                invariant
                    a <= row@.len(),
                    out@.len() == a,
                    forall|b: int| 0 <= b < a ==> (#[trigger] out@[b])@ == (if row@[b] != 0 {
                        seq![row@[b]]
                    } else {
                        Seq::<usize>::empty()
                    }),
                decreases row@.len() - a,
            {
                let mut targets: Vec<usize> = Vec::new();
                if row[a] != 0 {
                    targets.push(row[a]);
                }
                assert(targets@ =~= (if row@[a as int] != 0 { seq![row@[a as int]] } else { Seq::<usize>::empty() }));
                out.push(targets);
                a = a + 1;
            }
            transitions.push(out);
            q = q + 1;
        }
        let nfa = NFA {
            states: self.states,
            alphabet: self.alphabet.clone(),
            transitions,
            starting_state: self.starting_state,
            accepting_states: self.accepting_states.clone(),
        };
        assert forall|s: int, a: Letter, t: int| nfa.step(s, a, t) <==> self.step(s, a, t) by {
            if 1 <= s <= self.transitions@.len() && 1 <= a <= self.transitions@[s - 1]@.len() {
                let r = self.transitions@[s - 1]@[a - 1];
                if r != 0 {
                    assert(nfa.succ(s, a) == seq![r]);
                    if self.delta(s, a) == Some(t) {
                        assert(nfa.succ(s, a)[0] as int == t);
                    }
                } else {
                    assert(nfa.succ(s, a) =~= Seq::<usize>::empty());
                }
            }
        }
        nfa
    }
}

/// The positive entries of `ms`, in order, as states.
fn positive_targets(ms: &Vec<i32>) -> (out: Vec<usize>)
    ensures
        out@ == targets_of(ms@),
{
    let mut out: Vec<usize> = Vec::new();
    let mut i: usize = 0;
    while i < ms.len()
        invariant
            i <= ms@.len(),
            out@ == targets_of(ms@.take(i as int)),
        decreases ms@.len() - i,
    {
        proof {
            assert(ms@.take(i + 1).drop_last() =~= ms@.take(i as int));
        }
        if ms[i] > 0 {
            out.push(ms[i] as usize);
        }
        i = i + 1;
    }
    assert(ms@.take(ms@.len() as int) =~= ms@);
    out
}

/// Two views of the same accepting states agree.
proof fn lemma_accepting_views(kept: Seq<usize>, raw: Seq<i32>)
    requires
        kept.to_set() == raw.map_values(|s: i32| s as usize).to_set(),
    ensures
        kept.to_set().map(|s: usize| s as int) == state_set(raw),
{
    assert forall|x: int| kept.to_set().map(|s: usize| s as int).contains(x) <==> state_set(raw).contains(x) by {
        if kept.to_set().map(|s: usize| s as int).contains(x) {
            let u = choose|u: usize| kept.to_set().contains(u) && u as int == x;
            let mu = raw.map_values(|s: i32| s as usize);
            let mi = raw.map_values(|s: i32| s as usize as int);
            assert(mu.contains(u));
            let k = choose|k: int| 0 <= k < mu.len() && #[trigger] mu[k] == u;
            assert(mi[k] == x);
            assert(mi.to_set().contains(x));
        }
        if state_set(raw).contains(x) {
            let mu = raw.map_values(|s: i32| s as usize);
            let mi = raw.map_values(|s: i32| s as usize as int);
            assert(mi.contains(x));
            let k = choose|k: int| 0 <= k < mi.len() && #[trigger] mi[k] == x;
            let u = raw[k] as usize;
            assert(mu[k] == u);
            assert(mu.to_set().contains(u));
            assert(kept.to_set().contains(u));
        }
    }
    assert(kept.to_set().map(|s: usize| s as int) =~= state_set(raw));
}

/// The letters `1..=num_inputs`, as the `regular` constraint numbers them.
fn alphabet_vec(num_inputs: u32) -> (alphabet: Vec<Letter>)
    ensures
        alphabet@ == letters(num_inputs),
{
    let k: u32 = if num_inputs <= 0x7fff_ffffu32 { num_inputs } else { 0 };
    let mut alphabet: Vec<Letter> = Vec::new();
    let mut i: u32 = 0;
    while i < k
        invariant
            k <= i32::MAX,
            k == (if num_inputs <= i32::MAX { num_inputs as int } else { 0 }),
            i <= k,
            alphabet@ == Seq::new(i as nat, |j: int| (j + 1) as Letter),
        decreases k - i,
    {
        alphabet.push((i + 1) as Letter);
        i = i + 1;
        assert(alphabet@ =~= Seq::new(i as nat, |j: int| (j + 1) as Letter));
    }
    alphabet
}

/// The states named in `states` (as `usize`), each once.
fn distinct_states(states: &Vec<i32>) -> (out: Vec<usize>)
    ensures
        out@.no_duplicates(),
        out@.to_set() == states@.map_values(|s: i32| s as usize).to_set(),
{
    let mut out: Vec<usize> = Vec::new();
    let mut i: usize = 0;
    while i < states.len()
        invariant
            i <= states@.len(),
            out@.no_duplicates(),
            out@.to_set() == states@.take(i as int).map_values(|s: i32| s as usize).to_set(),
        decreases states@.len() - i,
    {
        let s = states[i] as usize;
        let ghost before = out@;
        if !contains_usize(&out, s) {
            out.push(s);
        }
        proof {
            let pre = states@.take(i as int).map_values(|s: i32| s as usize);
            let post = states@.take(i + 1).map_values(|s: i32| s as usize);
            assert(post =~= pre.push(s));
            assert(out@.to_set() =~= post.to_set()) by {
                pre.lemma_push_to_set_commute(s);
                if before.contains(s) {
                    assert(out@ == before);
                } else {
                    before.lemma_push_to_set_commute(s);
                }
            }
        }
        i = i + 1;
    }
    assert(states@.take(states@.len() as int) =~= states@);
    out
}

/// Whether `v` holds `x`.
pub fn contains_usize(v: &Vec<usize>, x: usize) -> (found: bool)
    ensures
        found == v@.contains(x),
{
    let mut i: usize = 0;
    while i < v.len()
        invariant
            i <= v@.len(),
            forall|j: int| 0 <= j < i ==> v@[j] != x,
        decreases v@.len() - i,
    {
        if v[i] == x {
            return true;
        }
        i = i + 1;
    }
    false
}


/// A table whose every cell lists exactly one target reads as the deterministic
/// table of those targets: the same transitions.
pub proof fn lemma_single_target_tables(t: Seq<Vec<i32>>, m: Seq<Vec<Vec<i32>>>, num_inputs: u32)
    requires
        m.len() == t.len(),
        forall|q: int| 0 <= q < t.len() ==> (#[trigger] m[q])@.len() == t[q]@.len(),
        forall|q: int, a: int| 0 <= q < t.len() && 0 <= a < t[q]@.len() ==> (#[trigger] m[q]@[a])@ == seq![t[q]@[a]],
    ensures
        forall|s: int, a: Letter, x: int| #[trigger] dfa_matrix_step(t, num_inputs, s, a, x) <==> nfa_matrix_step(m, num_inputs, s, a, x),
{
    assert forall|s: int, a: Letter, x: int| #[trigger] dfa_matrix_step(t, num_inputs, s, a, x) <==> nfa_matrix_step(m, num_inputs, s, a, x) by {
        if 1 <= s <= t.len() && 1 <= a <= t[s - 1]@.len() {
            let e = t[s - 1]@[a - 1];
            assert(m[s - 1]@[a - 1]@ == seq![e]);
            if dfa_matrix_step(t, num_inputs, s, a, x) {
                assert(seq![e][0] == x as i32);
            }
            if nfa_matrix_step(m, num_inputs, s, a, x) {
                assert(seq![e].contains(x as i32));
                assert(e == x as i32);
            }
        }
    }
}

/// The DFA and the NFA built from one deterministic table, each cell of the
/// NFA's table listing the DFA's one target, are the same automaton: the same
/// states, letters, start, transitions and accepting states, and so the same
/// accepted runs.
pub proof fn lemma_single_target_automata(
    dfa: DFA,
    nfa: NFA,
    num_states: u32,
    num_inputs: u32,
    t: Seq<Vec<i32>>,
    m: Seq<Vec<Vec<i32>>>,
    initial_state: i32,
    accepting_states: Seq<i32>,
)
    requires
        dfa.built_from(num_states, num_inputs, t, initial_state, accepting_states),
        nfa.built_from(num_states, num_inputs, m, initial_state, accepting_states),
        m.len() == t.len(),
        forall|q: int| 0 <= q < t.len() ==> (#[trigger] m[q])@.len() == t[q]@.len(),
        forall|q: int, a: int| 0 <= q < t.len() && 0 <= a < t[q]@.len() ==> (#[trigger] m[q]@[a])@ == seq![t[q]@[a]],
    ensures
        nfa.states == dfa.states,
        nfa.alphabet@ == dfa.alphabet@,
        nfa.starting_state == dfa.starting_state,
        nfa.accepting_set() == dfa.accepting_set(),
        nfa.transitions@.len() == dfa.transitions@.len(),
        forall|q: int, a: int| 0 <= q < t.len() && 0 <= a < t[q]@.len() && t[q]@[a] > 0 ==>
            (#[trigger] nfa.transitions@[q]@[a])@ == seq![dfa.transitions@[q]@[a]],
        forall|s: int, a: Letter, x: int| #[trigger] nfa.step(s, a, x) <==> dfa.step(s, a, x),
        forall|n: nat, p: Seq<Arc>| #[trigger] nfa.accepts_run(n, p) <==> dfa.accepts_run(n, p),
{
    lemma_single_target_tables(t, m, num_inputs);
    assert forall|q: int, a: int| 0 <= q < t.len() && 0 <= a < t[q]@.len() && t[q]@[a] > 0 implies
        (#[trigger] nfa.transitions@[q]@[a])@ == seq![dfa.transitions@[q]@[a]] by {
        let e = t[q]@[a];
        assert(m[q]@[a]@ == seq![e]);
        assert(nfa.transitions@[q]@[a]@ == targets_of(seq![e]));
        assert(seq![e].drop_last() =~= Seq::<i32>::empty());
        assert(targets_of(Seq::<i32>::empty()) == Seq::<usize>::empty());
        assert(targets_of(seq![e]) == Seq::<usize>::empty().push(e as usize));
        assert(dfa.transitions@[q]@ == t[q]@.map_values(|m: i32| target_of(m)));
        assert(dfa.transitions@[q]@[a] == target_of(e));
    }
    assert forall|s: int, a: Letter, x: int| #[trigger] nfa.step(s, a, x) <==> dfa.step(s, a, x) by {
        assert(dfa.step(s, a, x) <==> dfa_matrix_step(t, num_inputs, s, a, x));
        assert(nfa.step(s, a, x) <==> nfa_matrix_step(m, num_inputs, s, a, x));
    }
    assert(nfa.step_fn() =~= dfa.step_fn());
}

} // verus!
