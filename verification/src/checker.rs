//! Checkers for the `regular` constraint: given the values each variable may
//! still take, decide by a forward sweep over the reachable states whether no
//! accepted word is left (a conflict).

use vstd::prelude::*;

use crate::Letter;
use crate::automaton::{DFA, NFA, is_run, run_state, lemma_run_push, lemma_run_last, contains_usize};
use crate::layered_graph::{Arc, contains_letter};
use crate::regular::{fits, lemma_push_contains};

verus! {

/// After the first `l` variables, taking letters from their domains only, the
/// automaton can be in state `s`.
pub open spec fn reaches_within(nfa: NFA, domains: Seq<Vec<Letter>>, l: nat, s: int) -> bool {
    exists|q: Seq<Arc>|
        #[trigger] is_run(nfa.step_fn(), nfa.starting_state as int, l, q) && fits(domains, q)
            && run_state(nfa.starting_state as int, q, l as int) == s
}

/// The first `l` transitions of a run are a run.
pub proof fn lemma_run_take(step: spec_fn(int, Letter, int) -> bool, start: int, n: nat, p: Seq<Arc>, l: nat)
    requires
        is_run(step, start, n, p),
        l <= n,
    ensures
        is_run(step, start, l, p.take(l as int)),
        run_state(start, p.take(l as int), l as int) == run_state(start, p, l as int),
    decreases n - l,
{
    if l < n {
        lemma_run_take(step, start, n, p, l + 1);
        let q = p.take(l + 1int);
        lemma_run_last(step, start, l, q);
        assert(q.drop_last() == p.take(l as int));
        if l > 0 {
            assert(q[l - 1] == p[l - 1]);
        }
    } else {
        assert(p.take(l as int) == p);
    }
}

/// A state reached after `l + 1` variables is entered from a state reached after
/// `l`, by a letter of the `l`-th domain.
proof fn lemma_reaches_back(nfa: NFA, domains: Seq<Vec<Letter>>, l: nat, t: int)
    requires
        l < domains.len(),
        reaches_within(nfa, domains, l + 1, t),
    ensures
        exists|s: int, a: Letter|
            #[trigger] nfa.step(s, a, t) && domains[l as int]@.contains(a) && reaches_within(nfa, domains, l, s),
{
    let step = nfa.step_fn();
    let start = nfa.starting_state as int;
    let q = choose|q: Seq<Arc>| #[trigger] is_run(step, start, l + 1, q) && fits(domains, q)
        && run_state(start, q, l + 1int) == t;
    lemma_run_last(step, start, l, q);
    let r = q.drop_last();
    let s = q[l as int].start_state as int;
    let a = q[l as int].letter;
    assert(fits(domains, r)) by {
        assert forall|j: int| 0 <= j < r.len() && j < r.len() implies #[trigger] domains[j]@.contains(r[j].letter) by {
            assert(r[j] == q[j]);
        }
    }
    assert(domains[l as int]@.contains(a));
    assert(reaches_within(nfa, domains, l, s));
    assert(nfa.step(s, a, t));
}

/// A transition, by a letter of the `l`-th domain, from a state reached after `l`
/// variables enters a state reached after `l + 1`.
proof fn lemma_reaches_forward(nfa: NFA, domains: Seq<Vec<Letter>>, l: nat, s: int, a: Letter, t: int)
    requires
        l < domains.len(),
        l < usize::MAX,
        nfa.step(s, a, t),
        domains[l as int]@.contains(a),
        reaches_within(nfa, domains, l, s),
    ensures
        reaches_within(nfa, domains, l + 1, t),
{
    let step = nfa.step_fn();
    let start = nfa.starting_state as int;
    let q = choose|q: Seq<Arc>| #[trigger] is_run(step, start, l, q) && fits(domains, q)
        && run_state(start, q, l as int) == s;
    let k = choose|k: int| 0 <= k < nfa.succ(s, a).len() && #[trigger] nfa.succ(s, a)[k] as int == t;
    assert(0 <= s <= usize::MAX) by {
        if l == 0 {
            assert(s == start);
        } else {
            assert(s == q[l - 1].end_state as int);
        }
    }
    let e = Arc { start_layer: l as usize, start_state: s as usize, end_state: nfa.succ(s, a)[k], letter: a };
    assert(step(e.start_state as int, e.letter, e.end_state as int));
    lemma_run_push(step, start, l, q, e);
    let q2 = q.push(e);
    assert(fits(domains, q2)) by {
        assert forall|j: int| 0 <= j < q2.len() && j < q2.len() implies #[trigger] domains[j]@.contains(q2[j].letter) by {
            if j < l {
                assert(q2[j] == q[j]);
            }
        }
    }
    assert(is_run(step, start, l + 1, q2) && fits(domains, q2) && run_state(start, q2, l + 1int) == t);
}

/// Adds to `next` every state entered from `q` by a letter of the alphabet that `row` holds.
fn add_successors(nfa: &NFA, q: usize, row: &Vec<Letter>, next: &mut Vec<usize>)
    requires
        old(next)@.no_duplicates(),
    ensures
        final(next)@.no_duplicates(),
        forall|t: usize| #[trigger] final(next)@.contains(t) <==>
            (old(next)@.contains(t) || exists|a: Letter| row@.contains(a) && #[trigger] nfa.step(q as int, a, t as int)),
{
    let mut i: usize = 0;
    while i < nfa.alphabet.len()
        invariant
            i <= nfa.alphabet@.len(),
            next@.no_duplicates(),
            forall|t: usize| #[trigger] next@.contains(t) <==>
                (old(next)@.contains(t) || exists|a: Letter| nfa.alphabet@.take(i as int).contains(a) && row@.contains(a)
                    && #[trigger] nfa.step(q as int, a, t as int)),
        decreases nfa.alphabet@.len() - i,
    {
        let letter = nfa.alphabet[i];
        let ghost before = next@;
        if contains_letter(row, letter) {
            let targets = nfa.targets(q, letter);
            let mut k: usize = 0;
            while k < targets.len()
                invariant
                    k <= targets@.len(),
                    targets@ == nfa.succ(q as int, letter),
                    next@.no_duplicates(),
                    forall|t: usize| #[trigger] next@.contains(t) <==> (before.contains(t) || targets@.take(k as int).contains(t)),
                decreases targets@.len() - k,
            {
                let t = targets[k];
                let ghost nb = next@;
                if !contains_usize(next, t) {
                    next.push(t);
                }
                proof {
                    assert(targets@.take(k + 1) == targets@.take(k as int).push(t));
                    assert forall|u: usize| #[trigger] next@.contains(u) <==> (before.contains(u) || targets@.take(k + 1).contains(u)) by {
                        lemma_push_contains(targets@.take(k as int), t, u);
                        lemma_push_contains(nb, t, u);
                    }
                }
                k = k + 1;
            }
            proof {
                assert(targets@.take(targets@.len() as int) == targets@);
            }
        }
        proof {
            let al = nfa.alphabet@;
            assert(al.take(i + 1) == al.take(i as int).push(letter));
            assert forall|t: usize| #[trigger] next@.contains(t) <==>
                (old(next)@.contains(t) || exists|a: Letter| al.take(i + 1).contains(a) && row@.contains(a)
                    && #[trigger] nfa.step(q as int, a, t as int)) by {
                if next@.contains(t) && !old(next)@.contains(t) {
                    if before.contains(t) {
                        let a = choose|a: Letter| al.take(i as int).contains(a) && row@.contains(a)
                            && #[trigger] nfa.step(q as int, a, t as int);
                        lemma_push_contains(al.take(i as int), letter, a);
                    } else {
                        let targets = nfa.succ(q as int, letter);
                        assert(row@.contains(letter));
                        let k = choose|k: int| 0 <= k < targets.len() && #[trigger] targets[k] == t;
                        assert(targets[k] as int == t as int);
                        assert(al.contains(letter)) by {
                            assert(al[i as int] == letter);
                        }
                        assert(nfa.step(q as int, letter, t as int));
                        lemma_push_contains(al.take(i as int), letter, letter);
                    }
                }
                if exists|a: Letter| al.take(i + 1).contains(a) && row@.contains(a) && #[trigger] nfa.step(q as int, a, t as int) {
                    let a = choose|a: Letter| al.take(i + 1).contains(a) && row@.contains(a) && #[trigger] nfa.step(q as int, a, t as int);
                    lemma_push_contains(al.take(i as int), letter, a);
                    if a == letter && !al.take(i as int).contains(a) {
                        let targets = nfa.succ(q as int, letter);
                        let k = choose|k: int| 0 <= k < targets.len() && #[trigger] targets[k] as int == t as int;
                        assert(targets[k] == t);
                        assert(targets.contains(t));
                    }
                }
            }
        }
        i = i + 1;
    }
    proof {
        assert(nfa.alphabet@.take(nfa.alphabet@.len() as int) == nfa.alphabet@);
        assert forall|t: usize| #[trigger] next@.contains(t) <==>
            (old(next)@.contains(t) || exists|a: Letter| row@.contains(a) && #[trigger] nfa.step(q as int, a, t as int)) by {
            if exists|a: Letter| row@.contains(a) && #[trigger] nfa.step(q as int, a, t as int) {
                let a = choose|a: Letter| row@.contains(a) && #[trigger] nfa.step(q as int, a, t as int);
                assert(nfa.alphabet@.take(nfa.alphabet@.len() as int).contains(a));
            }
        }
    }
}

/// A state reached after some variables is a state of the machine (a `usize`).
proof fn lemma_reached_is_state(nfa: NFA, domains: Seq<Vec<Letter>>, l: nat, s: int)
    requires
        reaches_within(nfa, domains, l, s),
    ensures
        0 <= s <= usize::MAX,
{
    let q = choose|q: Seq<Arc>| #[trigger] is_run(nfa.step_fn(), nfa.starting_state as int, l, q) && fits(domains, q)
        && run_state(nfa.starting_state as int, q, l as int) == s;
    if l > 0 {
        assert(s == q[l - 1].end_state as int);
    }
}

/// The words accepted after `n` letters that fit the domains end in the states
/// reached after `n` variables.
proof fn lemma_accepting_reached(nfa: NFA, domains: Seq<Vec<Letter>>, n: nat)
    requires
        n == domains.len(),
    ensures
        (exists|p: Seq<Arc>| #[trigger] nfa.accepts_run(n, p) && fits(domains, p)) <==>
            exists|s: int| #[trigger] reaches_within(nfa, domains, n, s) && nfa.accepting_set().contains(s),
{
    let start = nfa.starting_state as int;
    if exists|p: Seq<Arc>| #[trigger] nfa.accepts_run(n, p) && fits(domains, p) {
        let p = choose|p: Seq<Arc>| #[trigger] nfa.accepts_run(n, p) && fits(domains, p);
        let s = run_state(start, p, n as int);
        assert(reaches_within(nfa, domains, n, s));
    }
    if exists|s: int| #[trigger] reaches_within(nfa, domains, n, s) && nfa.accepting_set().contains(s) {
        let s = choose|s: int| #[trigger] reaches_within(nfa, domains, n, s) && nfa.accepting_set().contains(s);
        let q = choose|q: Seq<Arc>| #[trigger] is_run(nfa.step_fn(), start, n, q) && fits(domains, q)
            && run_state(start, q, n as int) == s;
        assert(nfa.accepts_run(n, q));
    }
}

/// A word accepted after `n` letters that fits the domains passes, after `l`
/// letters, through a state reached after `l` variables.
proof fn lemma_accepting_passes(nfa: NFA, domains: Seq<Vec<Letter>>, n: nat, p: Seq<Arc>, l: nat)
    requires
        nfa.accepts_run(n, p),
        fits(domains, p),
        l <= n,
    ensures
        reaches_within(nfa, domains, l, run_state(nfa.starting_state as int, p, l as int)),
{
    let start = nfa.starting_state as int;
    lemma_run_take(nfa.step_fn(), start, n, p, l);
    let q = p.take(l as int);
    assert(fits(domains, q)) by {
        assert forall|j: int| 0 <= j < q.len() && j < q.len() implies #[trigger] domains[j]@.contains(q[j].letter) by {
            assert(q[j] == p[j]);
        }
    }
}

/// Whether no word the automaton accepts fits the domains: a forward sweep over
/// the states reachable with letters of the domains, stopping as soon as none is
/// left, then a look for an accepting one among the last.
pub fn nfa_conflict(nfa: &NFA, domains: &Vec<Vec<Letter>>) -> (conflict: bool)
    ensures
        conflict <==> !exists|p: Seq<Arc>| #[trigger] nfa.accepts_run(domains@.len() as nat, p) && fits(domains@, p),
{
    let n = domains.len();
    let mut reachable: Vec<usize> = Vec::new();
    reachable.push(nfa.starting_state);
    proof {
        let start = nfa.starting_state as int;
        let e = Seq::<Arc>::empty();
        assert(is_run(nfa.step_fn(), start, 0, e) && fits(domains@, e) && run_state(start, e, 0) == start);
        assert forall|s: usize| #[trigger] reachable@.contains(s) <==> reaches_within(*nfa, domains@, 0, s as int) by {
            if reaches_within(*nfa, domains@, 0, s as int) {
                assert(s == nfa.starting_state);
                assert(reachable@[0] == s);
            }
        }
    }
    let mut i: usize = 0;
    while i < n
        invariant
            n == domains@.len(),
            i <= n,
            reachable@.no_duplicates(),
            forall|s: usize| #[trigger] reachable@.contains(s) <==> reaches_within(*nfa, domains@, i as nat, s as int),
        decreases n - i,
    {
        let row = &domains[i];
        let mut next: Vec<usize> = Vec::new();
        let mut r: usize = 0;
        while r < reachable.len()
            invariant
                n == domains@.len(),
                i < n,
                row@ == domains@[i as int]@,
                r <= reachable@.len(),
                next@.no_duplicates(),
                forall|t: usize| #[trigger] next@.contains(t) <==> exists|s: usize, a: Letter|
                    reachable@.take(r as int).contains(s) && row@.contains(a) && #[trigger] nfa.step(s as int, a, t as int),
            decreases reachable@.len() - r,
        {
            let ghost before = next@;
            let q = reachable[r];
            add_successors(nfa, q, row, &mut next);
            proof {
                let rt = reachable@.take(r as int);
                assert(reachable@.take(r + 1) == rt.push(q));
                assert forall|t: usize| #[trigger] next@.contains(t) <==> exists|s: usize, a: Letter|
                    reachable@.take(r + 1).contains(s) && row@.contains(a) && #[trigger] nfa.step(s as int, a, t as int) by {
                    if next@.contains(t) {
                        if before.contains(t) {
                            let (s, a) = choose|s: usize, a: Letter| rt.contains(s) && row@.contains(a)
                                && #[trigger] nfa.step(s as int, a, t as int);
                            lemma_push_contains(rt, q, s);
                        } else {
                            let a = choose|a: Letter| row@.contains(a) && #[trigger] nfa.step(q as int, a, t as int);
                            lemma_push_contains(rt, q, q);
                        }
                    }
                    if exists|s: usize, a: Letter| reachable@.take(r + 1).contains(s) && row@.contains(a)
                        && #[trigger] nfa.step(s as int, a, t as int) {
                        let (s, a) = choose|s: usize, a: Letter| reachable@.take(r + 1).contains(s) && row@.contains(a)
                            && #[trigger] nfa.step(s as int, a, t as int);
                        lemma_push_contains(rt, q, s);
                    }
                }
            }
            r = r + 1;
        }
        proof {
            assert(reachable@.take(reachable@.len() as int) == reachable@);
            assert forall|t: usize| #[trigger] next@.contains(t) <==> reaches_within(*nfa, domains@, (i + 1) as nat, t as int) by {
                if next@.contains(t) {
                    let (s, a) = choose|s: usize, a: Letter| reachable@.contains(s) && row@.contains(a)
                        && #[trigger] nfa.step(s as int, a, t as int);
                    lemma_reaches_forward(*nfa, domains@, i as nat, s as int, a, t as int);
                }
                if reaches_within(*nfa, domains@, (i + 1) as nat, t as int) {
                    lemma_reaches_back(*nfa, domains@, i as nat, t as int);
                    let (s, a) = choose|s: int, a: Letter| #[trigger] nfa.step(s, a, t as int)
                        && domains@[i as int]@.contains(a) && reaches_within(*nfa, domains@, i as nat, s);
                    lemma_reached_is_state(*nfa, domains@, i as nat, s);
                    assert(reachable@.contains(s as usize));
                }
            }
        }
        reachable = next;
        i = i + 1;
        if reachable.len() == 0 {
            proof {
                if exists|p: Seq<Arc>| #[trigger] nfa.accepts_run(n as nat, p) && fits(domains@, p) {
                    let p = choose|p: Seq<Arc>| #[trigger] nfa.accepts_run(n as nat, p) && fits(domains@, p);
                    let s = run_state(nfa.starting_state as int, p, i as int);
                    lemma_accepting_passes(*nfa, domains@, n as nat, p, i as nat);
                    lemma_reached_is_state(*nfa, domains@, i as nat, s);
                    assert(reachable@.contains(s as usize));
                }
            }
            return true;
        }
    }
    let mut k: usize = 0;
    while k < reachable.len()
        invariant
            n == domains@.len(),
            forall|s: usize| #[trigger] reachable@.contains(s) <==> reaches_within(*nfa, domains@, n as nat, s as int),
            k <= reachable@.len(),
            forall|j: int| 0 <= j < k ==> !nfa.accepting_states@.contains(#[trigger] reachable@[j]),
        decreases reachable@.len() - k,
    {
        if contains_usize(&nfa.accepting_states, reachable[k]) {
            proof {
                let s = reachable@[k as int];
                assert(reachable@.contains(s));
                assert(reaches_within(*nfa, domains@, n as nat, s as int));
                assert(nfa.accepting_states@.to_set().contains(s));
                assert(nfa.accepting_set().contains(s as int));
                lemma_accepting_reached(*nfa, domains@, n as nat);
            }
            return false;
        }
        k = k + 1;
    }
    proof {
        lemma_accepting_reached(*nfa, domains@, n as nat);
        if exists|s: int| #[trigger] reaches_within(*nfa, domains@, n as nat, s) && nfa.accepting_set().contains(s) {
            let s = choose|s: int| #[trigger] reaches_within(*nfa, domains@, n as nat, s) && nfa.accepting_set().contains(s);
            lemma_reached_is_state(*nfa, domains@, n as nat, s);
            assert(reachable@.contains(s as usize));
            let j = choose|j: int| 0 <= j < reachable@.len() && reachable@[j] == s as usize;
            let u = choose|u: usize| nfa.accepting_states@.to_set().contains(u) && u as int == s;
            assert(nfa.accepting_states@.contains(reachable@[j]));
        }
    }
    true
}

/// The inference checker of the `regular` constraint over a DFA.
#[derive(Clone, Debug)]
pub struct RegularChecker<Var> {
    pub sequence: Vec<Var>,
    pub dfa: DFA,
}

impl<Var> RegularChecker<Var> {
    /// Given the values each variable of the sequence may take, reports a
    /// conflict exactly when no word the DFA accepts fits them.
    pub fn check(&self, domains: &Vec<Vec<Letter>>) -> (conflict: bool)
        requires
            domains@.len() == self.sequence@.len(),
        ensures
            conflict <==> !exists|p: Seq<Arc>|
                #[trigger] self.dfa.accepts_run(self.sequence@.len() as nat, p) && fits(domains@, p),
    {
        let nfa = self.dfa.to_nfa();
        proof {
            assert(nfa.step_fn() =~= self.dfa.step_fn());
            assert(nfa.accepting_set() == self.dfa.accepting_set());
            assert forall|p: Seq<Arc>| #[trigger] self.dfa.accepts_run(self.sequence@.len() as nat, p)
                == nfa.accepts_run(domains@.len() as nat, p) by {}
        }
        let conflict = nfa_conflict(&nfa, domains);
        proof {
            let n = domains@.len() as nat;
            if exists|p: Seq<Arc>| #[trigger] self.dfa.accepts_run(n, p) && fits(domains@, p) {
                let p = choose|p: Seq<Arc>| #[trigger] self.dfa.accepts_run(n, p) && fits(domains@, p);
                assert(nfa.accepts_run(n, p));
            }
            if exists|p: Seq<Arc>| #[trigger] nfa.accepts_run(n, p) && fits(domains@, p) {
                let p = choose|p: Seq<Arc>| #[trigger] nfa.accepts_run(n, p) && fits(domains@, p);
                assert(self.dfa.accepts_run(n, p));
            }
        }
        conflict
    }
}

/// The inference checker of the `regular` constraint over an NFA.
#[derive(Clone, Debug)]
pub struct RegularNfaChecker<Var> {
    pub sequence: Vec<Var>,
    pub nfa: NFA,
}

impl<Var> RegularNfaChecker<Var> {
    /// Given the values each variable of the sequence may take, reports a
    /// conflict exactly when no word the NFA accepts fits them.
    pub fn check(&self, domains: &Vec<Vec<Letter>>) -> (conflict: bool)
        requires
            domains@.len() == self.sequence@.len(),
        ensures
            conflict <==> !exists|p: Seq<Arc>|
                #[trigger] self.nfa.accepts_run(self.sequence@.len() as nat, p) && fits(domains@, p),
    {
        nfa_conflict(&self.nfa, domains)
    }
}

} // verus!
