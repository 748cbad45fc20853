//! Propagation of the `regular` constraint over a layered graph: the graph is
//! synced with the variables' current domains, a conflict is reported when no
//! accepting path is left, and otherwise every value that lies on no accepting
//! path is pruned, each with its explanation.

use vstd::prelude::*;

use crate::Letter;
use crate::automaton::{DFA, NFA, is_accepting_run, dfa_matrix_step, nfa_matrix_step, letters, run_state, state_set, target_of, targets_of};
use crate::checker::{RegularChecker, RegularNfaChecker};
use crate::layered_graph::{Arc, LayeredGraph, Node, contains_letter};

verus! {

/// The letters of `p` before position `k` lie in their variables' domains.
pub open spec fn fits_before(domains: Seq<Vec<Letter>>, p: Seq<Arc>, k: int) -> bool {
    forall|j: int| 0 <= j < k && j < p.len() ==> #[trigger] domains[j]@.contains(p[j].letter)
}

/// Every letter of `p` lies in its variable's domain.
pub open spec fn fits(domains: Seq<Vec<Letter>>, p: Seq<Arc>) -> bool {
    fits_before(domains, p, p.len() as int)
}

/// In `g`, the `idx`-th variable takes the value `v` on a full path within the graph's domains.
pub open spec fn lives(g: LayeredGraph, idx: int, v: Letter) -> bool {
    exists|p: Seq<Arc>|
        #[trigger] g.is_full_path(p) && g.path_in_domain(p) && idx < p.len() && p[idx].letter == v
}

/// Syncing `g` with `domains` takes `v` from the `i`-th variable: `v` is outside
/// that variable's domain and lies on a full path of `g` whose earlier letters fit.
pub open spec fn externally_removed(g: LayeredGraph, domains: Seq<Vec<Letter>>, i: int, v: Letter) -> bool {
    &&& 0 <= i < domains.len()
    &&& !domains[i]@.contains(v)
    &&& exists|p: Seq<Arc>|
        #[trigger] g.is_full_path(p) && g.path_in_domain(p) && fits_before(domains, p, i) && i < p.len()
            && p[i].letter == v
}

/// Removes from the graph every value that is alive in it but no longer in its
/// variable's domain, and returns the `(variable, value)` pairs removed.
pub fn kill_externally_removed(graph: &mut LayeredGraph, domains: &Vec<Vec<Letter>>) -> (removed: Vec<(usize, Letter)>)
    requires
        old(graph).wf(),
        old(graph).layers() == domains@.len() + 1,
    ensures
        final(graph).wf(),
        final(graph).same_shape(*old(graph)),
        final(graph).layers() == old(graph).layers(),
        forall|p: Seq<Arc>| #[trigger] final(graph).is_full_path(p) == old(graph).is_full_path(p),
        forall|p: Seq<Arc>| #[trigger] final(graph).is_full_path(p) ==>
            (final(graph).path_in_domain(p) <==> old(graph).path_in_domain(p) && fits(domains@, p)),
        forall|j: int, v: Letter| 0 <= j < domains@.len() ==>
            (#[trigger] final(graph).domain_of(j).contains(v) <==> old(graph).domain_of(j).contains(v)
                && !externally_removed(*old(graph), domains@, j, v)),
        removed@.no_duplicates(),
        forall|i: usize, v: Letter| #[trigger] removed@.contains((i, v)) <==> externally_removed(*old(graph), domains@, i as int, v),
{
    let ghost g_in = *graph;
    proof {
        g_in.lemma_same_shape_refl();
    }
    let n = domains.len();
    let mut removed: Vec<(usize, Letter)> = Vec::new();
    let mut idx: usize = 0;
    while idx < n
        invariant
            n == domains@.len(),
            g_in.wf(),
            g_in.layers() == n + 1,
            idx <= n,
            graph.wf(),
            graph.same_shape(g_in),
            graph.layers() == g_in.layers(),
            forall|p: Seq<Arc>| #[trigger] graph.is_full_path(p) == g_in.is_full_path(p),
            forall|p: Seq<Arc>| #[trigger] graph.is_full_path(p) ==>
                (graph.path_in_domain(p) <==> g_in.path_in_domain(p) && fits_before(domains@, p, idx as int)),
            forall|j: int, v: Letter| 0 <= j < n ==>
                (#[trigger] graph.domain_of(j).contains(v) <==> g_in.domain_of(j).contains(v)
                    && !(j < idx && externally_removed(g_in, domains@, j, v))),
            removed@.no_duplicates(),
            forall|i: usize, v: Letter| #[trigger] removed@.contains((i, v)) <==>
                (i < idx && externally_removed(g_in, domains@, i as int, v)),
        decreases n - idx,
    {
        let ghost g0 = *graph;
        let ghost r0 = removed@;
        proof {
            g0.lemma_same_shape_refl();
        }
        let values = graph.living_values(idx);
        let row = &domains[idx];
        let mut t: usize = 0;
        while t < values.len()
            invariant
                n == domains@.len(),
                idx < n,
                row@ == domains@[idx as int]@,
                t <= values@.len(),
                g0.wf(),
                g0.layers() == n + 1,
                values@.no_duplicates(),
                graph.wf(),
                graph.same_shape(g0),
                graph.layers() == g0.layers(),
                forall|p: Seq<Arc>| #[trigger] graph.is_full_path(p) == g0.is_full_path(p),
                forall|j: int| 0 <= j < n && j != idx ==> #[trigger] graph.domain_of(j) == g0.domain_of(j),
                forall|v: Letter| #[trigger] graph.domain_of(idx as int).contains(v) <==>
                    g0.domain_of(idx as int).contains(v) && !(values@.take(t as int).contains(v) && !row@.contains(v)),
                removed@.no_duplicates(),
                forall|i: usize, v: Letter| #[trigger] removed@.contains((i, v)) <==>
                    (r0.contains((i, v)) || (i == idx && values@.take(t as int).contains(v) && !row@.contains(v))),
                forall|i: usize, v: Letter| #[trigger] r0.contains((i, v)) ==> i < idx,
            decreases values@.len() - t,
        {
            let letter = values[t];
            proof {
                assert(values@.take(t + 1) == values@.take(t as int).push(letter));
                assert(!values@.take(t as int).contains(letter)) by {
                    if values@.take(t as int).contains(letter) {
                        let k = choose|k: int| 0 <= k < t && #[trigger] values@.take(t as int)[k] == letter;
                        assert(values@[k] == values@[t as int]);
                    }
                }
            }
            if !contains_letter(row, letter) {
                let ghost before = *graph;
                graph.kill_value(idx, letter);
                proof {
                    assert forall|j: int| 0 <= j < n && j != idx implies #[trigger] graph.domain_of(j) == g0.domain_of(j) by {
                        assert(graph.domain_of(j) == before.domain_of(j));
                    }
                    assert(!removed@.contains((idx, letter)));
                    graph.lemma_same_shape_trans(before, g0);
                    assert forall|v: Letter| #[trigger] graph.domain_of(idx as int).contains(v) <==>
                        g0.domain_of(idx as int).contains(v) && !(values@.take(t + 1).contains(v) && !row@.contains(v)) by {
                        lemma_push_contains(values@.take(t as int), letter, v);
                    }
                }
                let ghost rb = removed@;
                removed.push((idx, letter));
                proof {
                    assert forall|i: usize, v: Letter| #[trigger] removed@.contains((i, v)) <==>
                        (r0.contains((i, v)) || (i == idx && values@.take(t + 1).contains(v) && !row@.contains(v))) by {
                        lemma_push_contains(rb, (idx, letter), (i, v));
                        lemma_push_contains(values@.take(t as int), letter, v);
                    }
                }
            } else {
                proof {
                    assert forall|i: usize, v: Letter| #[trigger] removed@.contains((i, v)) <==>
                        (r0.contains((i, v)) || (i == idx && values@.take(t + 1).contains(v) && !row@.contains(v))) by {
                        lemma_push_contains(values@.take(t as int), letter, v);
                    }
                    assert forall|v: Letter| #[trigger] graph.domain_of(idx as int).contains(v) <==>
                        g0.domain_of(idx as int).contains(v) && !(values@.take(t + 1).contains(v) && !row@.contains(v)) by {
                        lemma_push_contains(values@.take(t as int), letter, v);
                    }
                }
            }
            t = t + 1;
        }
        proof {
            graph.lemma_same_shape_trans(g0, g_in);
            assert(values@.take(values@.len() as int) == values@);
            // The values taken from `idx` are exactly those removed by syncing.
            assert forall|v: Letter| values@.contains(v) && !row@.contains(v) <==>
                #[trigger] externally_removed(g_in, domains@, idx as int, v) by {
                if values@.contains(v) && !row@.contains(v) {
                    let p = choose|p: Seq<Arc>| #[trigger] g0.is_full_path(p) && g0.path_in_domain(p)
                        && idx < p.len() && p[idx as int].letter == v;
                    assert(g_in.is_full_path(p));
                }
                if externally_removed(g_in, domains@, idx as int, v) {
                    let p = choose|p: Seq<Arc>| #[trigger] g_in.is_full_path(p) && g_in.path_in_domain(p)
                        && fits_before(domains@, p, idx as int) && idx < p.len() && p[idx as int].letter == v;
                    assert(g0.is_full_path(p));
                    assert(values@.contains(v));
                }
            }
            assert forall|i: usize, v: Letter| #[trigger] removed@.contains((i, v)) <==>
                (i < idx + 1 && externally_removed(g_in, domains@, i as int, v)) by {
                if i == idx {
                    assert(!r0.contains((i, v)));
                }
            }
            assert forall|j: int, v: Letter| 0 <= j < n implies
                (#[trigger] graph.domain_of(j).contains(v) <==> g_in.domain_of(j).contains(v)
                    && !(j < idx + 1 && externally_removed(g_in, domains@, j, v))) by {
                if j != idx {
                    assert(graph.domain_of(j) == g0.domain_of(j));
                    assert(g0.domain_of(j).contains(v) <==> g_in.domain_of(j).contains(v)
                        && !(j < idx && externally_removed(g_in, domains@, j, v)));
                } else {
                    assert(g0.domain_of(j).contains(v) <==> g_in.domain_of(j).contains(v));
                }
            }
            assert forall|p: Seq<Arc>| #[trigger] graph.is_full_path(p) implies
                (graph.path_in_domain(p) <==> g_in.path_in_domain(p) && fits_before(domains@, p, idx + 1)) by {
                g0.lemma_full_path_len(p);
                graph.lemma_in_domain_iff(p);
                g0.lemma_in_domain_iff(p);
                if g0.path_in_domain(p) {
                    assert(values@.contains(p[idx as int].letter));
                }
                if graph.path_in_domain(p) {
                    assert forall|j: int| 0 <= j < p.len() implies #[trigger] g0.domain_of(j).contains(p[j].letter) by {
                        assert(graph.domain_of(j).contains(p[j].letter));
                    }
                    assert(g0.path_in_domain(p));
                    assert(graph.domain_of(idx as int).contains(p[idx as int].letter));
                    assert(domains@[idx as int]@.contains(p[idx as int].letter));
                }
                if g0.path_in_domain(p) && domains@[idx as int]@.contains(p[idx as int].letter) {
                    assert forall|j: int| 0 <= j < p.len() implies #[trigger] graph.domain_of(j).contains(p[j].letter) by {
                        assert(g0.domain_of(j).contains(p[j].letter));
                    }
                }
            }
        }
        idx = idx + 1;
    }
    proof {
        assert forall|p: Seq<Arc>| #[trigger] graph.is_full_path(p) implies
            (graph.path_in_domain(p) <==> g_in.path_in_domain(p) && fits(domains@, p)) by {
            g_in.lemma_full_path_len(p);
        }
    }
    removed
}

/// A value taken from a variable, with its explanation: the pairs `(j, l)`,
/// each meaning "variable `j` is not `l`", from which the removal follows.
#[derive(Debug, Clone)]
pub struct Removal {
    pub variable: usize,
    pub value: Letter,
    pub reason: Vec<(usize, Letter)>,
}

/// The outcome of one propagation.
#[derive(Debug, Clone)]
pub enum Propagation {
    /// No accepting path is left; the pairs explain the conflict.
    Conflict(Vec<(usize, Letter)>),
    /// The values to remove, in order.
    Prune(Vec<Removal>),
}

/// The `(variable, value)` pairs to prune from the `idx`-th variable: the values
/// of `row`, in order, that `keep` does not keep.
pub open spec fn row_prunes(keep: spec_fn(int, Letter) -> bool, idx: int, row: Seq<Letter>) -> Seq<(usize, Letter)>
    decreases row.len(),
{
    if row.len() == 0 {
        Seq::empty()
    } else {
        let rest = row_prunes(keep, idx, row.drop_last());
        if keep(idx, row.last()) { rest } else { rest.push((idx as usize, row.last())) }
    }
}

/// The pairs to prune from the first `k` variables, variable by variable.
pub open spec fn prunes(keep: spec_fn(int, Letter) -> bool, domains: Seq<Vec<Letter>>, k: int) -> Seq<(usize, Letter)>
    decreases k,
{
    if k <= 0 {
        Seq::empty()
    } else {
        prunes(keep, domains, k - 1) + row_prunes(keep, k - 1, domains[k - 1]@)
    }
}

/// The `(variable, value)` pair of a removal.
pub open spec fn removal_pair(r: Removal) -> (usize, Letter) {
    (r.variable, r.value)
}

/// Reports a conflict, explained by the values removed while syncing, when the
/// graph has no full path within its domains (or no variable at all).
pub fn detect_conflict(graph: &LayeredGraph, removed: Vec<(usize, Letter)>) -> (conflict: Option<Vec<(usize, Letter)>>)
    requires
        graph.wf(),
    ensures
        conflict is None <==> graph.layers() > 1 && graph.has_solution(),
        conflict matches Some(r) ==> r@ == removed@,
{
    if graph.is_consistent() {
        None
    } else {
        Some(removed)
    }
}

/// Every value of a variable's domain that lies on no full path of the graph
/// within its domains is removed, with the graph's explanation of the removal.
pub fn propagate_into_domains(graph: &LayeredGraph, domains: &Vec<Vec<Letter>>) -> (removals: Vec<Removal>)
    requires
        graph.wf(),
        graph.layers() == domains@.len() + 1,
    ensures
        removals@.map_values(|r: Removal| removal_pair(r)) == prunes(
            |i: int, v: Letter| lives(*graph, i, v),
            domains@,
            domains@.len() as int,
        ),
        forall|k: int| 0 <= k < removals@.len() ==> (#[trigger] removals@[k]).reason@.no_duplicates()
            && removals@[k].reason@.to_set() == graph.explanation(removals@[k].variable as int, removals@[k].value),
{
    let ghost keep = |i: int, v: Letter| lives(*graph, i, v);
    let n = domains.len();
    let mut out: Vec<Removal> = Vec::new();
    let mut idx: usize = 0;
    while idx < n
        invariant
            n == domains@.len(),
            idx <= n,
            graph.wf(),
            graph.layers() == n + 1,
            keep == (|i: int, v: Letter| lives(*graph, i, v)),
            out@.map_values(|r: Removal| removal_pair(r)) == prunes(keep, domains@, idx as int),
            forall|k: int| 0 <= k < out@.len() ==> (#[trigger] out@[k]).reason@.no_duplicates()
                && out@[k].reason@.to_set() == graph.explanation(out@[k].variable as int, out@[k].value),
        decreases n - idx,
    {
        let alive = graph.living_values(idx);
        let row = &domains[idx];
        let ghost base = out@.map_values(|r: Removal| removal_pair(r));
        let mut t: usize = 0;
        while t < row.len()
            invariant
                n == domains@.len(),
                idx < n,
                row@ == domains@[idx as int]@,
                t <= row@.len(),
                graph.wf(),
                graph.layers() == n + 1,
                keep == (|i: int, v: Letter| lives(*graph, i, v)),
                forall|v: Letter| #[trigger] alive@.contains(v) <==> lives(*graph, idx as int, v),
                base == prunes(keep, domains@, idx as int),
                out@.map_values(|r: Removal| removal_pair(r)) == base + row_prunes(keep, idx as int, row@.take(t as int)),
                forall|k: int| 0 <= k < out@.len() ==> (#[trigger] out@[k]).reason@.no_duplicates()
                    && out@[k].reason@.to_set() == graph.explanation(out@[k].variable as int, out@[k].value),
            decreases row@.len() - t,
        {
            let value = row[t];
            proof {
                assert(row@.take(t + 1).drop_last() == row@.take(t as int));
                assert(row@.take(t + 1).last() == value);
            }
            if !contains_letter(&alive, value) {
                let reason = graph.explain_removal(idx, value);
                let ghost before = out@;
                out.push(Removal { variable: idx, value, reason });
                proof {
                    assert(out@.map_values(|r: Removal| removal_pair(r))
                        == before.map_values(|r: Removal| removal_pair(r)).push((idx, value)));
                }
            }
            t = t + 1;
        }
        proof {
            assert(row@.take(row@.len() as int) == row@);
        }
        idx = idx + 1;
    }
    out
}

/// Syncs a copy of the graph with `domains`, reports a conflict if no full path is
/// left, and otherwise prunes every value that lies on no full path.
pub fn propagate_graph(graph: &LayeredGraph, domains: &Vec<Vec<Letter>>) -> (result: Propagation)
    requires
        graph.wf(),
        graph.layers() == domains@.len() + 1,
    ensures
        result matches Propagation::Conflict(r) ==> r@.no_duplicates()
            && forall|i: usize, v: Letter| #[trigger] r@.contains((i, v)) <==> externally_removed(*graph, domains@, i as int, v),
        result is Conflict <==> !(domains@.len() > 0
            && exists|p: Seq<Arc>| #[trigger] graph.is_full_path(p) && graph.path_in_domain(p) && fits(domains@, p)),
        result matches Propagation::Prune(rs) ==> exists|synced: LayeredGraph| #[trigger] synced_with(*graph, domains@, synced)
            && rs@.map_values(|r: Removal| removal_pair(r)) == prunes(
                |i: int, v: Letter| lives(synced, i, v),
                domains@,
                domains@.len() as int,
            )
            && forall|k: int| 0 <= k < rs@.len() ==> (#[trigger] rs@[k]).reason@.no_duplicates()
                && rs@[k].reason@.to_set() == synced.explanation(rs@[k].variable as int, rs@[k].value),
{
    let mut synced = graph.duplicate();
    let ghost dup = synced;
    let removed = kill_externally_removed(&mut synced, domains);
    proof {
        dup.lemma_same_state_shape(*graph);
        synced.lemma_same_shape_trans(dup, *graph);
        assert forall|j: int, v: Letter| externally_removed(dup, domains@, j, v) == externally_removed(*graph, domains@, j, v) by {
            if externally_removed(dup, domains@, j, v) {
                let p = choose|p: Seq<Arc>| #[trigger] dup.is_full_path(p) && dup.path_in_domain(p)
                    && fits_before(domains@, p, j) && j < p.len() && p[j].letter == v;
                assert(graph.is_full_path(p) && graph.path_in_domain(p));
            }
            if externally_removed(*graph, domains@, j, v) {
                let p = choose|p: Seq<Arc>| #[trigger] graph.is_full_path(p) && graph.path_in_domain(p)
                    && fits_before(domains@, p, j) && j < p.len() && p[j].letter == v;
                assert(dup.is_full_path(p) && dup.path_in_domain(p));
            }
        }
        assert forall|i: usize, v: Letter| #[trigger] removed@.contains((i, v)) <==> externally_removed(*graph, domains@, i as int, v) by {
            assert(externally_removed(dup, domains@, i as int, v) == externally_removed(*graph, domains@, i as int, v));
        }
        assert forall|j: int, v: Letter| 0 <= j < domains@.len() implies
            (#[trigger] synced.domain_of(j).contains(v) <==> graph.domain_of(j).contains(v)
                && !externally_removed(*graph, domains@, j, v)) by {
            assert(externally_removed(dup, domains@, j, v) == externally_removed(*graph, domains@, j, v));
            assert(dup.domain_of(j) == graph.domain_of(j));
        }
        assert(synced_with(*graph, domains@, synced));
        synced.lemma_has_solution();
        if synced.layers() > 1 && synced.has_solution() {
            let p = choose|p: Seq<Arc>| #[trigger] synced.is_full_path(p) && synced.path_in_domain(p);
            assert(dup.is_full_path(p));
            assert(dup.path_in_domain(p) && fits(domains@, p));
            assert(graph.is_full_path(p) && graph.path_in_domain(p) && fits(domains@, p));
        }
        if domains@.len() > 0 && exists|p: Seq<Arc>| #[trigger] graph.is_full_path(p) && graph.path_in_domain(p) && fits(domains@, p) {
            let p = choose|p: Seq<Arc>| #[trigger] graph.is_full_path(p) && graph.path_in_domain(p) && fits(domains@, p);
            assert(dup.is_full_path(p) && dup.path_in_domain(p));
            assert(synced.is_full_path(p));
            assert(synced.is_full_path(p) && synced.path_in_domain(p));
        }
    }
    match detect_conflict(&synced, removed) {
        Some(reason) => Propagation::Conflict(reason),
        None => Propagation::Prune(propagate_into_domains(&synced, domains)),
    }
}

/// `synced` is `graph` synced with `domains`: the same arcs, the same full paths,
/// and in each domain the letters of `graph` that syncing does not remove.
pub open spec fn synced_with(graph: LayeredGraph, domains: Seq<Vec<Letter>>, synced: LayeredGraph) -> bool {
    &&& synced.wf()
    &&& graph.layers() == domains.len() + 1
    &&& synced.same_shape(graph)
    &&& synced.layers() == graph.layers()
    &&& forall|p: Seq<Arc>| #[trigger] synced.is_full_path(p) == graph.is_full_path(p)
    &&& forall|p: Seq<Arc>| #[trigger] synced.is_full_path(p) ==>
        (synced.path_in_domain(p) <==> graph.path_in_domain(p) && fits(domains, p))
    &&& forall|j: int, v: Letter| 0 <= j < domains.len() ==>
        (#[trigger] synced.domain_of(j).contains(v) <==> graph.domain_of(j).contains(v)
            && !externally_removed(graph, domains, j, v))
}

/// The explanation, in `graph` synced with `domains`, of removing `v` from the
/// `idx`-th variable.
pub open spec fn synced_explanation(graph: LayeredGraph, domains: Seq<Vec<Letter>>, idx: int, v: Letter) -> Set<(usize, Letter)> {
    (choose|g: LayeredGraph| synced_with(graph, domains, g)).explanation(idx, v)
}

/// Any two graphs synced from one graph with the same domains explain alike.
proof fn lemma_synced_explanation(graph: LayeredGraph, domains: Seq<Vec<Letter>>, g: LayeredGraph, idx: int, v: Letter)
    requires
        synced_with(graph, domains, g),
    ensures
        g.explanation(idx, v) == synced_explanation(graph, domains, idx, v),
{
    let h = choose|h: LayeredGraph| synced_with(graph, domains, h);
    h.lemma_same_shape_sym(graph);
    g.lemma_same_shape_trans(graph, h);
    assert forall|j: int, w: Letter| 0 <= j < g.layers() - 1 implies
        (#[trigger] g.domain_of(j).contains(w) <==> h.domain_of(j).contains(w)) by {}
    g.lemma_explanation_congruent(h, idx, v);
}

/// `reason` justifies removing `v` from the `i`-th variable: each of its pairs
/// is a value that another variable's domain no longer holds, and every full
/// path with `v` at that variable takes one of them.
pub open spec fn justifies(graph: LayeredGraph, domains: Seq<Vec<Letter>>, i: int, v: Letter, reason: Set<(usize, Letter)>) -> bool {
    &&& forall|pr: (usize, Letter)| #[trigger] reason.contains(pr) ==>
        pr.0 != i && pr.0 < domains.len() && !domains[pr.0 as int]@.contains(pr.1)
    &&& forall|p: Seq<Arc>| #[trigger] graph.is_full_path(p) && i < p.len() && p[i].letter == v ==>
        exists|j: int| 0 <= j < p.len() && j != i && reason.contains((j as usize, #[trigger] p[j].letter))
}

/// A full path whose letters lie in the synced domains, but perhaps at the
/// `i`-th variable, fits the first `k` domains when its `i`-th letter does.
proof fn lemma_synced_fits(graph: LayeredGraph, domains: Seq<Vec<Letter>>, synced: LayeredGraph, p: Seq<Arc>, i: int, k: int)
    requires
        graph_ready(graph, domains.len()),
        synced_with(graph, domains, synced),
        synced.is_full_path(p),
        0 <= i < p.len(),
        domains[i]@.contains(p[i].letter),
        forall|j: int| 0 <= j < p.len() && j != i ==> #[trigger] synced.domain_of(j).contains(p[j].letter),
        0 <= k <= p.len(),
    ensures
        fits_before(domains, p, k),
    decreases k,
{
    synced.lemma_full_path_len(p);
    if k > 0 {
        lemma_synced_fits(graph, domains, synced, p, i, k - 1);
        let j = k - 1;
        if j != i {
            assert(synced.domain_of(j).contains(p[j].letter));
            assert(!externally_removed(graph, domains, j, p[j].letter));
            assert(graph.is_full_path(p) && graph.path_in_domain(p));
            assert(fits_before(domains, p, j));
            assert(domains[j]@.contains(p[j].letter));
        }
    }
}

/// The explanation of a synced graph justifies removing a value that no
/// accepted word fitting the domains takes.
proof fn lemma_reason_justifies(graph: LayeredGraph, domains: Seq<Vec<Letter>>, synced: LayeredGraph, i: int, v: Letter)
    requires
        graph_ready(graph, domains.len()),
        synced_with(graph, domains, synced),
        0 <= i < domains.len(),
        domains[i]@.contains(v),
        !exists|p: Seq<Arc>| #[trigger] graph.is_full_path(p) && fits(domains, p) && i < p.len() && p[i].letter == v,
    ensures
        justifies(graph, domains, i, v, synced.explanation(i, v)),
{
    if synced.possible_with(i, v) {
        let p = choose|p: Seq<Arc>| #[trigger] synced.is_full_path(p) && i < p.len() && p[i].letter == v
            && forall|j: int| 0 <= j < p.len() && j != i ==> #[trigger] synced.domain_of(j).contains(p[j].letter);
        lemma_synced_fits(graph, domains, synced, p, i, p.len() as int);
        assert(graph.is_full_path(p) && fits(domains, p));
    }
    synced.lemma_explanation_sound(i, v);
    synced.lemma_same_shape_arcs(graph);
    let ex = synced.explanation(i, v);
    assert forall|pr: (usize, Letter)| #[trigger] ex.contains(pr) implies
        pr.0 != i && pr.0 < domains.len() && !domains[pr.0 as int]@.contains(pr.1) by {
        let a = choose|a: Arc| #[trigger] synced.has_arc(a) && a.pair() == pr;
        assert(graph.has_arc(a));
        let p = choose|p: Seq<Arc>| #[trigger] graph.is_full_path(p) && a.start_layer < p.len() && p[a.start_layer as int] == a;
        graph.lemma_full_path_len(p);
        graph.lemma_in_domain_iff(p);
        assert(graph.domain_of(a.start_layer as int).contains(a.letter));
        assert(!synced.domain_of(pr.0 as int).contains(pr.1));
        assert(externally_removed(graph, domains, pr.0 as int, pr.1));
    }
    assert forall|p: Seq<Arc>| #[trigger] graph.is_full_path(p) && i < p.len() && p[i].letter == v implies
        exists|j: int| 0 <= j < p.len() && j != i && ex.contains((j as usize, #[trigger] p[j].letter)) by {
        assert(synced.is_full_path(p));
    }
}

/// The graph is built and untouched: it holds one layer more than `n` variables,
/// every full path lies within its domains, and every arc lies on a full path.
pub open spec fn graph_ready(graph: LayeredGraph, n: nat) -> bool {
    &&& graph.wf()
    &&& graph.layers() == n + 1
    &&& forall|p: Seq<Arc>| #[trigger] graph.is_full_path(p) ==> graph.path_in_domain(p)
    &&& forall|a: Arc| #[trigger] graph.has_arc(a) ==> exists|p: Seq<Arc>|
        #[trigger] graph.is_full_path(p) && a.start_layer < p.len() && p[a.start_layer as int] == a
}

/// The propagation of an untouched graph, stated over its full paths: a conflict
/// exactly when no full path fits the domains (or there is no variable), explained
/// by the values syncing removes; otherwise the values on no fitting full path are
/// pruned, with the synced graph's explanations.
pub fn propagate_ready(graph: &LayeredGraph, domains: &Vec<Vec<Letter>>) -> (result: Propagation)
    requires
        graph_ready(*graph, domains@.len() as nat),
    ensures
        result is Conflict <==> !(domains@.len() > 0
            && exists|p: Seq<Arc>| #[trigger] graph.is_full_path(p) && fits(domains@, p)),
        result matches Propagation::Conflict(r) ==> r@.no_duplicates()
            && forall|i: usize, v: Letter| #[trigger] r@.contains((i, v)) <==> (i < domains@.len()
                && !domains@[i as int]@.contains(v)
                && exists|p: Seq<Arc>| #[trigger] graph.is_full_path(p) && fits_before(domains@, p, i as int)
                    && (i as int) < p.len() && p[i as int].letter == v),
        result matches Propagation::Prune(rs) ==> rs@.map_values(|r: Removal| removal_pair(r)) == prunes(
            |i: int, v: Letter| exists|p: Seq<Arc>| #[trigger] graph.is_full_path(p) && fits(domains@, p)
                && i < p.len() && p[i].letter == v,
            domains@,
            domains@.len() as int,
        ),
        result matches Propagation::Prune(rs) ==> forall|k: int| 0 <= k < rs@.len() ==>
            (#[trigger] rs@[k]).reason@.no_duplicates()
            && rs@[k].reason@.to_set() == synced_explanation(*graph, domains@, rs@[k].variable as int, rs@[k].value),
        result matches Propagation::Prune(rs) ==> forall|k: int| 0 <= k < rs@.len() ==>
            justifies(*graph, domains@, (#[trigger] rs@[k]).variable as int, rs@[k].value, rs@[k].reason@.to_set()),
        result matches Propagation::Prune(rs) ==> forall|k: int, pr: (usize, Letter)| 0 <= k < rs@.len()
            && #[trigger] rs@[k].reason@.contains(pr) ==>
            exists|p: Seq<Arc>, j: int| #![trigger graph.is_full_path(p), p[j]] graph.is_full_path(p) && 0 <= j < p.len()
                && j != rs@[k].variable && p[j].pair() == pr
                && (rs@[k].variable as int) < p.len() && p[rs@[k].variable as int].letter == rs@[k].value,
{
    let result = propagate_graph(graph, domains);
    proof {
        if domains@.len() > 0 && exists|p: Seq<Arc>| #[trigger] graph.is_full_path(p) && fits(domains@, p) {
            let p = choose|p: Seq<Arc>| #[trigger] graph.is_full_path(p) && fits(domains@, p);
            assert(graph.is_full_path(p) && graph.path_in_domain(p) && fits(domains@, p));
        }
        assert forall|i: usize, v: Letter| externally_removed(*graph, domains@, i as int, v) <==> (i < domains@.len()
            && !domains@[i as int]@.contains(v)
            && exists|p: Seq<Arc>| #[trigger] graph.is_full_path(p) && fits_before(domains@, p, i as int)
                && (i as int) < p.len() && p[i as int].letter == v) by {
            if exists|p: Seq<Arc>| #[trigger] graph.is_full_path(p) && fits_before(domains@, p, i as int)
                && (i as int) < p.len() && p[i as int].letter == v {
                let p = choose|p: Seq<Arc>| #[trigger] graph.is_full_path(p) && fits_before(domains@, p, i as int)
                    && (i as int) < p.len() && p[i as int].letter == v;
                assert(graph.path_in_domain(p));
            }
        }
        if result is Prune {
            {
                let rs = result->Prune_0;
                let synced = choose|synced: LayeredGraph| #[trigger] synced_with(*graph, domains@, synced)
                    && rs@.map_values(|r: Removal| removal_pair(r)) == prunes(
                        |i: int, v: Letter| lives(synced, i, v),
                        domains@,
                        domains@.len() as int,
                    )
                    && forall|k: int| 0 <= k < rs@.len() ==> (#[trigger] rs@[k]).reason@.no_duplicates()
                        && rs@[k].reason@.to_set() == synced.explanation(rs@[k].variable as int, rs@[k].value);
                let keep_synced = |i: int, v: Letter| lives(synced, i, v);
                let keep = |i: int, v: Letter| exists|p: Seq<Arc>| #[trigger] graph.is_full_path(p) && fits(domains@, p)
                    && i < p.len() && p[i].letter == v;
                assert forall|i: int, v: Letter| #[trigger] keep_synced(i, v) == keep(i, v) by {
                    if lives(synced, i, v) {
                        let p = choose|p: Seq<Arc>| #[trigger] synced.is_full_path(p) && synced.path_in_domain(p)
                            && i < p.len() && p[i].letter == v;
                        assert(graph.is_full_path(p) && fits(domains@, p));
                    }
                    if keep(i, v) {
                        let p = choose|p: Seq<Arc>| #[trigger] graph.is_full_path(p) && fits(domains@, p)
                            && i < p.len() && p[i].letter == v;
                        assert(graph.path_in_domain(p));
                        assert(synced.is_full_path(p));
                        assert(synced.is_full_path(p) && synced.path_in_domain(p));
                    }
                }
                assert(keep_synced =~= keep);
                assert forall|k: int| 0 <= k < rs@.len() implies
                    (#[trigger] rs@[k]).reason@.to_set() == synced_explanation(*graph, domains@, rs@[k].variable as int, rs@[k].value) by {
                    lemma_synced_explanation(*graph, domains@, synced, rs@[k].variable as int, rs@[k].value);
                }
                assert(domains@.len() <= usize::MAX) by {
                    vstd::std_specs::vec::axiom_spec_len(domains);
                }
                assert forall|k: int| 0 <= k < rs@.len() implies
                    justifies(*graph, domains@, (#[trigger] rs@[k]).variable as int, rs@[k].value, rs@[k].reason@.to_set()) by {
                    let i = rs@[k].variable;
                    let v = rs@[k].value;
                    assert(rs@.map_values(|r: Removal| removal_pair(r))[k] == (i, v));
                    assert(prunes(keep, domains@, domains@.len() as int).contains((i, v)));
                    lemma_prunes_contains(keep, domains@, domains@.len() as int, i, v);
                    lemma_reason_justifies(*graph, domains@, synced, i as int, v);
                }
                assert forall|k: int, pr: (usize, Letter)| 0 <= k < rs@.len() && #[trigger] rs@[k].reason@.contains(pr) implies
                    exists|p: Seq<Arc>, j: int| #![trigger graph.is_full_path(p), p[j]] graph.is_full_path(p) && 0 <= j < p.len()
                        && j != rs@[k].variable && p[j].pair() == pr
                        && (rs@[k].variable as int) < p.len() && p[rs@[k].variable as int].letter == rs@[k].value by {
                    let i = rs@[k].variable;
                    let v = rs@[k].value;
                    assert(rs@.map_values(|r: Removal| removal_pair(r))[k] == (i, v));
                    assert(prunes(keep, domains@, domains@.len() as int).contains((i, v)));
                    lemma_prunes_contains(keep, domains@, domains@.len() as int, i, v);
                    assert(rs@[k].reason@.to_set().contains(pr));
                    synced.lemma_explanation_on_paths(i as int, v);
                    let (p, j) = choose|p: Seq<Arc>, j: int| #![trigger synced.is_full_path(p), p[j]] synced.is_full_path(p) && 0 <= j < p.len()
                        && j != i && p[j].pair() == pr && p[i as int].letter == v
                        && forall|m: int| j < m < p.len() && m != i ==> #[trigger] synced.domain_of(m).contains(p[m].letter);
                    synced.lemma_full_path_len(p);
                    assert(graph.is_full_path(p));
                }
            }
        }
    }
    result
}

/// The words of length `n` that a DFA, given in the 1-based convention, accepts.
pub open spec fn dfa_matrix_accepts(
    matrix: Seq<Vec<i32>>,
    num_inputs: u32,
    initial_state: i32,
    accepting_states: Seq<i32>,
    n: nat,
    p: Seq<Arc>,
) -> bool {
    is_accepting_run(
        |s: int, a: Letter, t: int| dfa_matrix_step(matrix, num_inputs, s, a, t),
        initial_state as usize as int,
        state_set(accepting_states),
        n,
        p,
    )
}

/// The words of length `n` that an NFA, given in the 1-based convention, accepts.
pub open spec fn nfa_matrix_accepts(
    matrix: Seq<Vec<Vec<i32>>>,
    num_inputs: u32,
    initial_state: i32,
    accepting_states: Seq<i32>,
    n: nat,
    p: Seq<Arc>,
) -> bool {
    is_accepting_run(
        |s: int, a: Letter, t: int| nfa_matrix_step(matrix, num_inputs, s, a, t),
        initial_state as usize as int,
        state_set(accepting_states),
        n,
        p,
    )
}

/// A copy of a list of integers.
fn copy_ints(v: &Vec<i32>) -> (c: Vec<i32>)
    ensures
        c@ == v@,
{
    let mut c: Vec<i32> = Vec::new();
    let mut i: usize = 0;
    while i < v.len()
        invariant
            i <= v@.len(),
            c@ == v@.take(i as int),
        decreases v@.len() - i,
    {
        c.push(v[i]);
        i = i + 1;
        assert(c@ == v@.take(i as int));
    }
    assert(v@.take(v@.len() as int) == v@);
    c
}

/// A copy of a table of integers.
fn copy_rows(m: &Vec<Vec<i32>>) -> (c: Vec<Vec<i32>>)
    ensures
        c@.len() == m@.len(),
        forall|i: int| 0 <= i < m@.len() ==> (#[trigger] c@[i])@ == m@[i]@,
{
    let mut c: Vec<Vec<i32>> = Vec::new();
    let mut i: usize = 0;
    while i < m.len()
        invariant
            i <= m@.len(),
            c@.len() == i,
            forall|j: int| 0 <= j < i ==> (#[trigger] c@[j])@ == m@[j]@,
        decreases m@.len() - i,
    {
        c.push(copy_ints(&m[i]));
        i = i + 1;
    }
    c
}

/// A copy of a table of lists of integers.
fn copy_lists(m: &Vec<Vec<Vec<i32>>>) -> (c: Vec<Vec<Vec<i32>>>)
    ensures
        c@.len() == m@.len(),
        forall|i: int| 0 <= i < m@.len() ==> (#[trigger] c@[i])@.len() == m@[i]@.len(),
        forall|i: int, a: int| 0 <= i < m@.len() && 0 <= a < m@[i]@.len() ==> (#[trigger] c@[i]@[a])@ == m@[i]@[a]@,
{
    let mut c: Vec<Vec<Vec<i32>>> = Vec::new();
    let mut i: usize = 0;
    while i < m.len()
        invariant
            i <= m@.len(),
            c@.len() == i,
            forall|j: int| 0 <= j < i ==> (#[trigger] c@[j])@.len() == m@[j]@.len(),
            forall|j: int, a: int| 0 <= j < i && 0 <= a < m@[j]@.len() ==> (#[trigger] c@[j]@[a])@ == m@[j]@[a]@,
        decreases m@.len() - i,
    {
        c.push(copy_rows(&m[i]));
        i = i + 1;
    }
    c
}

/// The description of a `regular` constraint over a DFA, in the 1-based
/// convention: states `1..=num_states`, letters `1..=num_inputs`,
/// `transition_matrix[q - 1][a - 1]` the state entered from `q` by `a` (0: none).
#[derive(Clone, Debug)]
pub struct RegularPropagatorConstructor<Var> {
    pub sequence: Vec<Var>,
    pub num_states: u32,
    pub num_inputs: u32,
    pub transition_matrix: Vec<Vec<i32>>,
    pub initial_state: i32,
    pub accepting_states: Vec<i32>,
}

impl<Var> RegularPropagatorConstructor<Var> {
    /// `p` is an accepted word of the sequence's length, written as its transitions.
    pub open spec fn accepts(self, p: Seq<Arc>) -> bool {
        dfa_matrix_accepts(
            self.transition_matrix@,
            self.num_inputs,
            self.initial_state,
            self.accepting_states@,
            self.sequence@.len() as nat,
            p,
        )
    }

    /// Builds the propagator: the DFA, and its layered graph over the sequence.
    pub fn create(self) -> (prop: RegularPropagator<Var>)
        requires
            self.sequence@.len() + 1 < usize::MAX,
        ensures
            prop.wf(),
            prop.len() == self.sequence@.len(),
            forall|p: Seq<Arc>| #[trigger] prop.accepts(p) <==> self.accepts(p),
            prop.graph().layers() == self.sequence@.len() + 1,
            prop.graph().alphabet_seq() == letters(self.num_inputs),
            forall|j: int| 0 <= j < self.sequence@.len() ==> #[trigger] prop.graph().domain_of(j) == letters(self.num_inputs).to_set(),
            forall|p: Seq<Arc>| #[trigger] prop.graph().is_full_path(p) <==> self.accepts(p),
            forall|a: Arc| #[trigger] prop.graph().has_arc(a) <==> exists|p: Seq<Arc>|
                #[trigger] self.accepts(p) && a.start_layer < self.sequence@.len() && p[a.start_layer as int] == a,
            forall|a: Arc| #[trigger] prop.graph().has_arc(a) ==> prop.graph().arc_alive(a),
            forall|x: Node| #[trigger] prop.graph().node_set().contains(x) <==> (x.layer <= self.sequence@.len()
                && exists|p: Seq<Arc>| #[trigger] self.accepts(p)
                    && run_state(self.initial_state as usize as int, p, x.layer as int) == x.state as int),
    {
        let ghost this = self;
        let RegularPropagatorConstructor {
            sequence,
            num_states,
            num_inputs,
            transition_matrix,
            initial_state,
            accepting_states,
        } = self;
        let dfa = DFA::from(num_states, num_inputs, transition_matrix, initial_state, accepting_states);
        let ghost d = dfa;
        let n = sequence.len();
        let internal_graph = LayeredGraph::from(dfa, n);
        proof {
            lemma_dfa_accepts(d, this.transition_matrix@, num_inputs, initial_state, this.accepting_states@, n as nat);
            assert forall|p: Seq<Arc>| #[trigger] internal_graph.is_full_path(p) implies internal_graph.path_in_domain(p) by {
                internal_graph.lemma_full_path_len(p);
                internal_graph.lemma_in_domain_iff(p);
                assert forall|j: int| 0 <= j < p.len() implies #[trigger] internal_graph.domain_of(j).contains(p[j].letter) by {
                    assert(d.step(p[j].start_state as int, p[j].letter, p[j].end_state as int));
                    assert(d.alphabet@.contains(p[j].letter));
                }
            }
            assert forall|a: Arc| #[trigger] internal_graph.has_arc(a) implies exists|p: Seq<Arc>|
                #[trigger] internal_graph.is_full_path(p) && a.start_layer < p.len() && p[a.start_layer as int] == a by {
                let p = choose|p: Seq<Arc>| #[trigger] d.accepts_run(n as nat, p) && a.start_layer < n && p[a.start_layer as int] == a;
                assert(internal_graph.is_full_path(p));
                assert(p.len() == n);
            }
            crate::automaton::lemma_letters_increasing(num_inputs);
            crate::layered_graph::lemma_increasing_unique(internal_graph.alphabet_seq(), letters(num_inputs));
            assert forall|a: Arc| #[trigger] internal_graph.has_arc(a) implies internal_graph.arc_alive(a) by {
                let p = choose|p: Seq<Arc>| #[trigger] internal_graph.is_full_path(p) && a.start_layer < p.len() && p[a.start_layer as int] == a;
                assert(internal_graph.path_in_domain(p));
                internal_graph.lemma_arc_alive_iff_on_solution(a);
            }
            assert forall|a: Arc| #[trigger] internal_graph.has_arc(a) <==> exists|p: Seq<Arc>|
                #[trigger] this.accepts(p) && a.start_layer < n && p[a.start_layer as int] == a by {
                if internal_graph.has_arc(a) {
                    let p = choose|p: Seq<Arc>| #[trigger] d.accepts_run(n as nat, p) && a.start_layer < n && p[a.start_layer as int] == a;
                    assert(this.accepts(p));
                }
                if exists|p: Seq<Arc>| #[trigger] this.accepts(p) && a.start_layer < n && p[a.start_layer as int] == a {
                    let p = choose|p: Seq<Arc>| #[trigger] this.accepts(p) && a.start_layer < n && p[a.start_layer as int] == a;
                    assert(d.accepts_run(n as nat, p));
                }
            }
            assert forall|x: Node| #[trigger] internal_graph.node_set().contains(x) <==> (x.layer <= n
                && exists|p: Seq<Arc>| #[trigger] this.accepts(p)
                    && run_state(this.initial_state as usize as int, p, x.layer as int) == x.state as int) by {
                if internal_graph.node_set().contains(x) {
                    let p = choose|p: Seq<Arc>| #[trigger] d.accepts_run(n as nat, p)
                        && run_state(d.starting_state as int, p, x.layer as int) == x.state as int;
                    assert(this.accepts(p));
                }
                if x.layer <= n && exists|p: Seq<Arc>| #[trigger] this.accepts(p)
                    && run_state(this.initial_state as usize as int, p, x.layer as int) == x.state as int {
                    let p = choose|p: Seq<Arc>| #[trigger] this.accepts(p)
                        && run_state(this.initial_state as usize as int, p, x.layer as int) == x.state as int;
                    assert(d.accepts_run(n as nat, p));
                }
            }
        }
        RegularPropagator { sequence, internal_graph }
    }
}

impl<Var: Clone> RegularPropagatorConstructor<Var> {
    /// The inference checker of this constraint.
    pub fn add_inference_checkers(&self) -> (checker: RegularChecker<Var>)
        ensures
            checker.sequence@.len() == self.sequence@.len(),
            forall|i: int| 0 <= i < self.sequence@.len() ==> cloned::<Var>(self.sequence@[i], #[trigger] checker.sequence@[i]),
            forall|p: Seq<Arc>| #[trigger] checker.dfa.accepts_run(self.sequence@.len() as nat, p) <==> self.accepts(p),
            checker.dfa.states == self.num_states,
            checker.dfa.alphabet@ == letters(self.num_inputs),
            checker.dfa.transitions@.len() == self.transition_matrix@.len(),
            forall|q: int| 0 <= q < self.transition_matrix@.len() ==>
                (#[trigger] checker.dfa.transitions@[q])@ == self.transition_matrix@[q]@.map_values(|m: i32| target_of(m)),
            checker.dfa.starting_state == self.initial_state as usize,
            checker.dfa.accepting_states@.no_duplicates(),
            checker.dfa.accepting_states@.to_set() == self.accepting_states@.map_values(|s: i32| s as usize).to_set(),
    {
        let matrix = copy_rows(&self.transition_matrix);
        let accepting = copy_ints(&self.accepting_states);
        let dfa = DFA::from(self.num_states, self.num_inputs, matrix, self.initial_state, accepting);
        proof {
            assert forall|s: int, a: Letter, t: int| dfa_matrix_step(matrix@, self.num_inputs, s, a, t)
                == dfa_matrix_step(self.transition_matrix@, self.num_inputs, s, a, t) by {
                if 1 <= s <= matrix@.len() {
                    assert(matrix@[s - 1]@ == self.transition_matrix@[s - 1]@);
                }
            }
            lemma_dfa_accepts(dfa, self.transition_matrix@, self.num_inputs, self.initial_state,
                self.accepting_states@, self.sequence@.len() as nat);
            assert forall|q: int| 0 <= q < self.transition_matrix@.len() implies
                (#[trigger] dfa.transitions@[q])@ == self.transition_matrix@[q]@.map_values(|m: i32| target_of(m)) by {
                assert(matrix@[q]@ == self.transition_matrix@[q]@);
            }
        }
        RegularChecker { sequence: self.sequence.clone(), dfa }
    }
}

/// A DFA built from a table accepts what the table describes.
proof fn lemma_dfa_accepts(dfa: DFA, matrix: Seq<Vec<i32>>, num_inputs: u32, initial_state: i32, accepting_states: Seq<i32>, n: nat)
    requires
        dfa.starting_state == initial_state as usize,
        forall|s: int, a: Letter, t: int| #[trigger] dfa.step(s, a, t) <==> dfa_matrix_step(matrix, num_inputs, s, a, t),
        dfa.accepting_set() == state_set(accepting_states),
    ensures
        forall|p: Seq<Arc>| #[trigger] dfa.accepts_run(n, p) <==>
            dfa_matrix_accepts(matrix, num_inputs, initial_state, accepting_states, n, p),
{
    assert(dfa.step_fn() =~= (|s: int, a: Letter, t: int| dfa_matrix_step(matrix, num_inputs, s, a, t)));
}

/// An NFA built from a table accepts what the table describes.
proof fn lemma_nfa_accepts(nfa: NFA, matrix: Seq<Vec<Vec<i32>>>, num_inputs: u32, initial_state: i32, accepting_states: Seq<i32>, n: nat)
    requires
        nfa.starting_state == initial_state as usize,
        forall|s: int, a: Letter, t: int| #[trigger] nfa.step(s, a, t) <==> nfa_matrix_step(matrix, num_inputs, s, a, t),
        nfa.accepting_set() == state_set(accepting_states),
    ensures
        forall|p: Seq<Arc>| #[trigger] nfa.accepts_run(n, p) <==>
            nfa_matrix_accepts(matrix, num_inputs, initial_state, accepting_states, n, p),
{
    assert(nfa.step_fn() =~= (|s: int, a: Letter, t: int| nfa_matrix_step(matrix, num_inputs, s, a, t)));
}

/// The propagator of the `regular` constraint over a DFA.
#[derive(Clone, Debug)]
pub struct RegularPropagator<Var> {
    sequence: Vec<Var>,
    internal_graph: LayeredGraph,
}

impl<Var> RegularPropagator<Var> {
    /// The layered graph of the automaton over the sequence.
    pub closed spec fn graph(self) -> LayeredGraph {
        self.internal_graph
    }

    /// The propagator's invariant: its graph is built over the sequence and untouched.
    pub closed spec fn wf(self) -> bool {
        graph_ready(self.internal_graph, self.sequence@.len() as nat)
    }

    /// The number of variables of the sequence.
    pub closed spec fn len(self) -> nat {
        self.sequence@.len()
    }

    /// `p` is an accepted word of the sequence's length, written as its transitions.
    pub closed spec fn accepts(self, p: Seq<Arc>) -> bool {
        self.internal_graph.is_full_path(p)
    }

    /// The explanation of removing `v` from the `idx`-th variable, once the graph is
    /// synced with `domains`.
    pub closed spec fn explanation(self, domains: Seq<Vec<Letter>>, idx: int, v: Letter) -> Set<(usize, Letter)> {
        synced_explanation(self.internal_graph, domains, idx, v)
    }

    /// The propagator's name, "RegularDFAPropagator".
    pub fn name(&self) -> (name: &'static str)
        ensures
            name@ == "RegularDFAPropagator"@,
    {
        "RegularDFAPropagator"
    }

    /// Given each variable's current domain: a conflict exactly when no accepted word
    /// fits the domains (or the sequence is empty), explained by the values taken
    /// from the graph; otherwise, in order, every value of a domain that lies on no
    /// accepted word fitting the domains, each with its explanation.
    pub fn propagate_from_scratch(&self, domains: &Vec<Vec<Letter>>) -> (result: Propagation)
        requires
            self.wf(),
            domains@.len() == self.len(),
        ensures
            result is Conflict <==> !(self.len() > 0
                && exists|p: Seq<Arc>| #[trigger] self.accepts(p) && fits(domains@, p)),
            result matches Propagation::Conflict(r) ==> r@.no_duplicates()
                && forall|i: usize, v: Letter| #[trigger] r@.contains((i, v)) <==> (i < self.len()
                    && !domains@[i as int]@.contains(v)
                    && exists|p: Seq<Arc>| #[trigger] self.accepts(p) && fits_before(domains@, p, i as int)
                        && (i as int) < p.len() && p[i as int].letter == v),
            result matches Propagation::Prune(rs) ==> rs@.map_values(|r: Removal| removal_pair(r)) == prunes(
                |i: int, v: Letter| exists|p: Seq<Arc>| #[trigger] self.accepts(p) && fits(domains@, p)
                    && i < p.len() && p[i].letter == v,
                domains@,
                self.len() as int,
            ),
            result matches Propagation::Prune(rs) ==> forall|k: int| 0 <= k < rs@.len() ==>
                (#[trigger] rs@[k]).reason@.no_duplicates()
                && rs@[k].reason@.to_set() == self.explanation(domains@, rs@[k].variable as int, rs@[k].value),
            result matches Propagation::Prune(rs) ==> forall|k: int, pr: (usize, Letter)| 0 <= k < rs@.len()
                && #[trigger] rs@[k].reason@.contains(pr) ==>
                pr.0 != rs@[k].variable && pr.0 < self.len() && !domains@[pr.0 as int]@.contains(pr.1),
            result matches Propagation::Prune(rs) ==> forall|k: int, p: Seq<Arc>| 0 <= k < rs@.len()
                && #[trigger] self.accepts(p) && (#[trigger] rs@[k]).variable < p.len() && p[rs@[k].variable as int].letter == rs@[k].value
                ==> exists|j: int| 0 <= j < p.len() && j != rs@[k].variable && rs@[k].reason@.contains((j as usize, #[trigger] p[j].letter)),
            result matches Propagation::Prune(rs) ==> forall|k: int, pr: (usize, Letter)| 0 <= k < rs@.len()
                && #[trigger] rs@[k].reason@.contains(pr) ==>
                exists|p: Seq<Arc>, j: int| #![trigger self.accepts(p), p[j]] self.accepts(p) && 0 <= j < p.len()
                    && j != rs@[k].variable && p[j].pair() == pr
                    && (rs@[k].variable as int) < p.len() && p[rs@[k].variable as int].letter == rs@[k].value,
            result matches Propagation::Prune(rs) ==> forall|k: int| 0 <= k < rs@.len()
                && !(exists|p: Seq<Arc>| #[trigger] self.accepts(p) && (rs@[k].variable as int) < p.len()
                    && p[rs@[k].variable as int].letter == rs@[k].value)
                ==> (#[trigger] rs@[k]).reason@.len() == 0,
    {
        let result = propagate_ready(&self.internal_graph, domains);
        proof {
            let g = self.internal_graph;
            if self.len() > 0 && exists|p: Seq<Arc>| #[trigger] self.accepts(p) && fits(domains@, p) {
                let p = choose|p: Seq<Arc>| #[trigger] self.accepts(p) && fits(domains@, p);
                assert(g.is_full_path(p) && fits(domains@, p));
            }
            if domains@.len() > 0 && exists|p: Seq<Arc>| #[trigger] g.is_full_path(p) && fits(domains@, p) {
                let p = choose|p: Seq<Arc>| #[trigger] g.is_full_path(p) && fits(domains@, p);
                assert(self.accepts(p) && fits(domains@, p));
            }
            let keep_g = |i: int, v: Letter| exists|p: Seq<Arc>| #[trigger] g.is_full_path(p) && fits(domains@, p)
                && i < p.len() && p[i].letter == v;
            let keep = |i: int, v: Letter| exists|p: Seq<Arc>| #[trigger] self.accepts(p) && fits(domains@, p)
                && i < p.len() && p[i].letter == v;
            assert forall|i: int, v: Letter| #[trigger] keep(i, v) == keep_g(i, v) by {
                if keep(i, v) {
                    let p = choose|p: Seq<Arc>| #[trigger] self.accepts(p) && fits(domains@, p) && i < p.len() && p[i].letter == v;
                    assert(g.is_full_path(p));
                }
                if keep_g(i, v) {
                    let p = choose|p: Seq<Arc>| #[trigger] g.is_full_path(p) && fits(domains@, p) && i < p.len() && p[i].letter == v;
                    assert(self.accepts(p));
                }
            }
            assert(keep =~= keep_g);
            if result is Prune {
                let rs = result->Prune_0;
                assert forall|k: int, pr: (usize, Letter)| 0 <= k < rs@.len()
                    && #[trigger] rs@[k].reason@.contains(pr) implies
                    pr.0 != rs@[k].variable && pr.0 < self.len() && !domains@[pr.0 as int]@.contains(pr.1) by {
                    assert(justifies(g, domains@, rs@[k].variable as int, rs@[k].value, rs@[k].reason@.to_set()));
                    assert(rs@[k].reason@.to_set().contains(pr));
                }
                assert forall|k: int, p: Seq<Arc>| 0 <= k < rs@.len()
                    && #[trigger] self.accepts(p) && (#[trigger] rs@[k]).variable < p.len() && p[rs@[k].variable as int].letter == rs@[k].value
                    implies exists|j: int| 0 <= j < p.len() && j != rs@[k].variable
                        && rs@[k].reason@.contains((j as usize, #[trigger] p[j].letter)) by {
                    assert(justifies(g, domains@, rs@[k].variable as int, rs@[k].value, rs@[k].reason@.to_set()));
                    assert(g.is_full_path(p));
                    let j = choose|j: int| 0 <= j < p.len() && j != rs@[k].variable
                        && rs@[k].reason@.to_set().contains((j as usize, #[trigger] p[j].letter));
                    assert(rs@[k].reason@.contains((j as usize, p[j].letter)));
                }
            }
            if result is Conflict {
            let r = result->Conflict_0;
            assert forall|i: usize, v: Letter| #[trigger] r@.contains((i, v)) <==> (i < self.len()
                && !domains@[i as int]@.contains(v)
                && exists|p: Seq<Arc>| #[trigger] self.accepts(p) && fits_before(domains@, p, i as int)
                    && (i as int) < p.len() && p[i as int].letter == v) by {
                if exists|p: Seq<Arc>| #[trigger] self.accepts(p) && fits_before(domains@, p, i as int)
                    && (i as int) < p.len() && p[i as int].letter == v {
                    let p = choose|p: Seq<Arc>| #[trigger] self.accepts(p) && fits_before(domains@, p, i as int)
                        && (i as int) < p.len() && p[i as int].letter == v;
                    assert(g.is_full_path(p));
                }
                if exists|p: Seq<Arc>| #[trigger] g.is_full_path(p) && fits_before(domains@, p, i as int)
                    && (i as int) < p.len() && p[i as int].letter == v {
                    let p = choose|p: Seq<Arc>| #[trigger] g.is_full_path(p) && fits_before(domains@, p, i as int)
                        && (i as int) < p.len() && p[i as int].letter == v;
                    assert(self.accepts(p));
                }
            }
            }
        }
        proof {
            if result is Prune {
                let g = self.internal_graph;
                let rs = result->Prune_0;
                assert forall|k: int, pr: (usize, Letter)| 0 <= k < rs@.len() && #[trigger] rs@[k].reason@.contains(pr) implies
                    exists|p: Seq<Arc>, j: int| #![trigger self.accepts(p), p[j]] self.accepts(p) && 0 <= j < p.len()
                        && j != rs@[k].variable && p[j].pair() == pr
                        && (rs@[k].variable as int) < p.len() && p[rs@[k].variable as int].letter == rs@[k].value by {
                    let (p, j) = choose|p: Seq<Arc>, j: int| #![trigger g.is_full_path(p), p[j]] g.is_full_path(p) && 0 <= j < p.len()
                        && j != rs@[k].variable && p[j].pair() == pr
                        && (rs@[k].variable as int) < p.len() && p[rs@[k].variable as int].letter == rs@[k].value;
                    assert(self.accepts(p));
                }
                assert forall|k: int| 0 <= k < rs@.len()
                    && !(exists|p: Seq<Arc>| #[trigger] self.accepts(p) && (rs@[k].variable as int) < p.len()
                        && p[rs@[k].variable as int].letter == rs@[k].value)
                    implies (#[trigger] rs@[k]).reason@.len() == 0 by {
                    if rs@[k].reason@.len() > 0 {
                        let pr = rs@[k].reason@[0];
                        assert(rs@[k].reason@.contains(pr));
                        let (p, j) = choose|p: Seq<Arc>, j: int| #![trigger g.is_full_path(p), p[j]] g.is_full_path(p) && 0 <= j < p.len()
                            && j != rs@[k].variable && p[j].pair() == pr
                            && (rs@[k].variable as int) < p.len() && p[rs@[k].variable as int].letter == rs@[k].value;
                        assert(self.accepts(p));
                    }
                }
            }
        }
        result
    }
}

/// The description of a `regular` constraint over an NFA, in the 1-based
/// convention: `transition_matrix[q - 1][a - 1]` lists the states entered from
/// `q` by `a` (entries of 0 or below name none).
#[derive(Clone, Debug)]
pub struct RegularNfaPropagatorConstructor<Var> {
    pub sequence: Vec<Var>,
    pub num_states: u32,
    pub num_inputs: u32,
    pub transition_matrix: Vec<Vec<Vec<i32>>>,
    pub initial_state: i32,
    pub accepting_states: Vec<i32>,
}

impl<Var> RegularNfaPropagatorConstructor<Var> {
    /// `p` is an accepted word of the sequence's length, written as its transitions.
    pub open spec fn accepts(self, p: Seq<Arc>) -> bool {
        nfa_matrix_accepts(
            self.transition_matrix@,
            self.num_inputs,
            self.initial_state,
            self.accepting_states@,
            self.sequence@.len() as nat,
            p,
        )
    }

    /// Builds the propagator: the NFA, and its layered graph over the sequence.
    pub fn create(self) -> (prop: RegularNfaPropagator<Var>)
        requires
            self.sequence@.len() + 1 < usize::MAX,
        ensures
            prop.wf(),
            prop.len() == self.sequence@.len(),
            forall|p: Seq<Arc>| #[trigger] prop.accepts(p) <==> self.accepts(p),
            prop.graph().layers() == self.sequence@.len() + 1,
            prop.graph().alphabet_seq() == letters(self.num_inputs),
            forall|j: int| 0 <= j < self.sequence@.len() ==> #[trigger] prop.graph().domain_of(j) == letters(self.num_inputs).to_set(),
            forall|p: Seq<Arc>| #[trigger] prop.graph().is_full_path(p) <==> self.accepts(p),
            forall|a: Arc| #[trigger] prop.graph().has_arc(a) <==> exists|p: Seq<Arc>|
                #[trigger] self.accepts(p) && a.start_layer < self.sequence@.len() && p[a.start_layer as int] == a,
            forall|a: Arc| #[trigger] prop.graph().has_arc(a) ==> prop.graph().arc_alive(a),
            forall|x: Node| #[trigger] prop.graph().node_set().contains(x) <==> (x.layer <= self.sequence@.len()
                && exists|p: Seq<Arc>| #[trigger] self.accepts(p)
                    && run_state(self.initial_state as usize as int, p, x.layer as int) == x.state as int),
    {
        let ghost this = self;
        let RegularNfaPropagatorConstructor {
            sequence,
            num_states,
            num_inputs,
            transition_matrix,
            initial_state,
            accepting_states,
        } = self;
        let nfa = NFA::from(num_states, num_inputs, transition_matrix, initial_state, accepting_states);
        let ghost d = nfa;
        let n = sequence.len();
        let internal_graph = LayeredGraph::from_nfa(nfa, n);
        proof {
            lemma_nfa_accepts(d, this.transition_matrix@, num_inputs, initial_state, this.accepting_states@, n as nat);
            assert forall|p: Seq<Arc>| #[trigger] internal_graph.is_full_path(p) implies internal_graph.path_in_domain(p) by {
                internal_graph.lemma_full_path_len(p);
                internal_graph.lemma_in_domain_iff(p);
                assert forall|j: int| 0 <= j < p.len() implies #[trigger] internal_graph.domain_of(j).contains(p[j].letter) by {
                    assert(d.step(p[j].start_state as int, p[j].letter, p[j].end_state as int));
                    assert(d.alphabet@.contains(p[j].letter));
                }
            }
            assert forall|a: Arc| #[trigger] internal_graph.has_arc(a) implies exists|p: Seq<Arc>|
                #[trigger] internal_graph.is_full_path(p) && a.start_layer < p.len() && p[a.start_layer as int] == a by {
                let p = choose|p: Seq<Arc>| #[trigger] d.accepts_run(n as nat, p) && a.start_layer < n && p[a.start_layer as int] == a;
                assert(internal_graph.is_full_path(p));
                assert(p.len() == n);
            }
            crate::automaton::lemma_letters_increasing(num_inputs);
            crate::layered_graph::lemma_increasing_unique(internal_graph.alphabet_seq(), letters(num_inputs));
            assert forall|a: Arc| #[trigger] internal_graph.has_arc(a) implies internal_graph.arc_alive(a) by {
                let p = choose|p: Seq<Arc>| #[trigger] internal_graph.is_full_path(p) && a.start_layer < p.len() && p[a.start_layer as int] == a;
                assert(internal_graph.path_in_domain(p));
                internal_graph.lemma_arc_alive_iff_on_solution(a);
            }
            assert forall|a: Arc| #[trigger] internal_graph.has_arc(a) <==> exists|p: Seq<Arc>|
                #[trigger] this.accepts(p) && a.start_layer < n && p[a.start_layer as int] == a by {
                if internal_graph.has_arc(a) {
                    let p = choose|p: Seq<Arc>| #[trigger] d.accepts_run(n as nat, p) && a.start_layer < n && p[a.start_layer as int] == a;
                    assert(this.accepts(p));
                }
                if exists|p: Seq<Arc>| #[trigger] this.accepts(p) && a.start_layer < n && p[a.start_layer as int] == a {
                    let p = choose|p: Seq<Arc>| #[trigger] this.accepts(p) && a.start_layer < n && p[a.start_layer as int] == a;
                    assert(d.accepts_run(n as nat, p));
                }
            }
            assert forall|x: Node| #[trigger] internal_graph.node_set().contains(x) <==> (x.layer <= n
                && exists|p: Seq<Arc>| #[trigger] this.accepts(p)
                    && run_state(this.initial_state as usize as int, p, x.layer as int) == x.state as int) by {
                if internal_graph.node_set().contains(x) {
                    let p = choose|p: Seq<Arc>| #[trigger] d.accepts_run(n as nat, p)
                        && run_state(d.starting_state as int, p, x.layer as int) == x.state as int;
                    assert(this.accepts(p));
                }
                if x.layer <= n && exists|p: Seq<Arc>| #[trigger] this.accepts(p)
                    && run_state(this.initial_state as usize as int, p, x.layer as int) == x.state as int {
                    let p = choose|p: Seq<Arc>| #[trigger] this.accepts(p)
                        && run_state(this.initial_state as usize as int, p, x.layer as int) == x.state as int;
                    assert(d.accepts_run(n as nat, p));
                }
            }
        }
        RegularNfaPropagator { sequence, internal_graph }
    }
}

impl<Var: Clone> RegularNfaPropagatorConstructor<Var> {
    /// The inference checker of this constraint.
    pub fn add_inference_checkers(&self) -> (checker: RegularNfaChecker<Var>)
        ensures
            checker.sequence@.len() == self.sequence@.len(),
            forall|i: int| 0 <= i < self.sequence@.len() ==> cloned::<Var>(self.sequence@[i], #[trigger] checker.sequence@[i]),
            forall|p: Seq<Arc>| #[trigger] checker.nfa.accepts_run(self.sequence@.len() as nat, p) <==> self.accepts(p),
            checker.nfa.states == self.num_states,
            checker.nfa.alphabet@ == letters(self.num_inputs),
            checker.nfa.transitions@.len() == self.transition_matrix@.len(),
            forall|q: int| 0 <= q < self.transition_matrix@.len() ==>
                (#[trigger] checker.nfa.transitions@[q])@.len() == self.transition_matrix@[q]@.len(),
            forall|q: int, a: int| 0 <= q < self.transition_matrix@.len() && 0 <= a < self.transition_matrix@[q]@.len() ==>
                (#[trigger] checker.nfa.transitions@[q]@[a])@ == targets_of(self.transition_matrix@[q]@[a]@),
            checker.nfa.starting_state == self.initial_state as usize,
            checker.nfa.accepting_states@.no_duplicates(),
            checker.nfa.accepting_states@.to_set() == self.accepting_states@.map_values(|s: i32| s as usize).to_set(),
    {
        let matrix = copy_lists(&self.transition_matrix);
        let accepting = copy_ints(&self.accepting_states);
        let nfa = NFA::from(self.num_states, self.num_inputs, matrix, self.initial_state, accepting);
        proof {
            assert forall|s: int, a: Letter, t: int| nfa_matrix_step(matrix@, self.num_inputs, s, a, t)
                == nfa_matrix_step(self.transition_matrix@, self.num_inputs, s, a, t) by {
                if 1 <= s <= matrix@.len() && 1 <= a <= matrix@[s - 1]@.len() {
                    assert(matrix@[s - 1]@[a - 1]@ == self.transition_matrix@[s - 1]@[a - 1]@);
                }
            }
            lemma_nfa_accepts(nfa, self.transition_matrix@, self.num_inputs, self.initial_state,
                self.accepting_states@, self.sequence@.len() as nat);
            assert forall|q: int, a: int| 0 <= q < self.transition_matrix@.len() && 0 <= a < self.transition_matrix@[q]@.len() implies
                (#[trigger] nfa.transitions@[q]@[a])@ == targets_of(self.transition_matrix@[q]@[a]@) by {
                assert(matrix@[q]@[a]@ == self.transition_matrix@[q]@[a]@);
            }
        }
        RegularNfaChecker { sequence: self.sequence.clone(), nfa }
    }
}

/// The propagator of the `regular` constraint over an NFA.
#[derive(Clone, Debug)]
pub struct RegularNfaPropagator<Var> {
    sequence: Vec<Var>,
    internal_graph: LayeredGraph,
}

impl<Var> RegularNfaPropagator<Var> {
    /// The layered graph of the automaton over the sequence.
    pub closed spec fn graph(self) -> LayeredGraph {
        self.internal_graph
    }

    /// The propagator's invariant: its graph is built over the sequence and untouched.
    pub closed spec fn wf(self) -> bool {
        graph_ready(self.internal_graph, self.sequence@.len() as nat)
    }

    /// The number of variables of the sequence.
    pub closed spec fn len(self) -> nat {
        self.sequence@.len()
    }

    /// `p` is an accepted word of the sequence's length, written as its transitions.
    pub closed spec fn accepts(self, p: Seq<Arc>) -> bool {
        self.internal_graph.is_full_path(p)
    }

    /// The explanation of removing `v` from the `idx`-th variable, once the graph is
    /// synced with `domains`.
    pub closed spec fn explanation(self, domains: Seq<Vec<Letter>>, idx: int, v: Letter) -> Set<(usize, Letter)> {
        synced_explanation(self.internal_graph, domains, idx, v)
    }

    /// The propagator's name, "RegularNFAPropagator".
    pub fn name(&self) -> (name: &'static str)
        ensures
            name@ == "RegularNFAPropagator"@,
    {
        "RegularNFAPropagator"
    }

    /// Given each variable's current domain: a conflict exactly when no accepted word
    /// fits the domains (or the sequence is empty), explained by the values taken
    /// from the graph; otherwise, in order, every value of a domain that lies on no
    /// accepted word fitting the domains, each with its explanation.
    pub fn propagate_from_scratch(&self, domains: &Vec<Vec<Letter>>) -> (result: Propagation)
        requires
            self.wf(),
            domains@.len() == self.len(),
        ensures
            result is Conflict <==> !(self.len() > 0
                && exists|p: Seq<Arc>| #[trigger] self.accepts(p) && fits(domains@, p)),
            result matches Propagation::Conflict(r) ==> r@.no_duplicates()
                && forall|i: usize, v: Letter| #[trigger] r@.contains((i, v)) <==> (i < self.len()
                    && !domains@[i as int]@.contains(v)
                    && exists|p: Seq<Arc>| #[trigger] self.accepts(p) && fits_before(domains@, p, i as int)
                        && (i as int) < p.len() && p[i as int].letter == v),
            result matches Propagation::Prune(rs) ==> rs@.map_values(|r: Removal| removal_pair(r)) == prunes(
                |i: int, v: Letter| exists|p: Seq<Arc>| #[trigger] self.accepts(p) && fits(domains@, p)
                    && i < p.len() && p[i].letter == v,
                domains@,
                self.len() as int,
            ),
            result matches Propagation::Prune(rs) ==> forall|k: int| 0 <= k < rs@.len() ==>
                (#[trigger] rs@[k]).reason@.no_duplicates()
                && rs@[k].reason@.to_set() == self.explanation(domains@, rs@[k].variable as int, rs@[k].value),
            result matches Propagation::Prune(rs) ==> forall|k: int, pr: (usize, Letter)| 0 <= k < rs@.len()
                && #[trigger] rs@[k].reason@.contains(pr) ==>
                pr.0 != rs@[k].variable && pr.0 < self.len() && !domains@[pr.0 as int]@.contains(pr.1),
            result matches Propagation::Prune(rs) ==> forall|k: int, p: Seq<Arc>| 0 <= k < rs@.len()
                && #[trigger] self.accepts(p) && (#[trigger] rs@[k]).variable < p.len() && p[rs@[k].variable as int].letter == rs@[k].value
                ==> exists|j: int| 0 <= j < p.len() && j != rs@[k].variable && rs@[k].reason@.contains((j as usize, #[trigger] p[j].letter)),
            result matches Propagation::Prune(rs) ==> forall|k: int, pr: (usize, Letter)| 0 <= k < rs@.len()
                && #[trigger] rs@[k].reason@.contains(pr) ==>
                exists|p: Seq<Arc>, j: int| #![trigger self.accepts(p), p[j]] self.accepts(p) && 0 <= j < p.len()
                    && j != rs@[k].variable && p[j].pair() == pr
                    && (rs@[k].variable as int) < p.len() && p[rs@[k].variable as int].letter == rs@[k].value,
            result matches Propagation::Prune(rs) ==> forall|k: int| 0 <= k < rs@.len()
                && !(exists|p: Seq<Arc>| #[trigger] self.accepts(p) && (rs@[k].variable as int) < p.len()
                    && p[rs@[k].variable as int].letter == rs@[k].value)
                ==> (#[trigger] rs@[k]).reason@.len() == 0,
    {
        let result = propagate_ready(&self.internal_graph, domains);
        proof {
            let g = self.internal_graph;
            if self.len() > 0 && exists|p: Seq<Arc>| #[trigger] self.accepts(p) && fits(domains@, p) {
                let p = choose|p: Seq<Arc>| #[trigger] self.accepts(p) && fits(domains@, p);
                assert(g.is_full_path(p) && fits(domains@, p));
            }
            if domains@.len() > 0 && exists|p: Seq<Arc>| #[trigger] g.is_full_path(p) && fits(domains@, p) {
                let p = choose|p: Seq<Arc>| #[trigger] g.is_full_path(p) && fits(domains@, p);
                assert(self.accepts(p) && fits(domains@, p));
            }
            let keep_g = |i: int, v: Letter| exists|p: Seq<Arc>| #[trigger] g.is_full_path(p) && fits(domains@, p)
                && i < p.len() && p[i].letter == v;
            let keep = |i: int, v: Letter| exists|p: Seq<Arc>| #[trigger] self.accepts(p) && fits(domains@, p)
                && i < p.len() && p[i].letter == v;
            assert forall|i: int, v: Letter| #[trigger] keep(i, v) == keep_g(i, v) by {
                if keep(i, v) {
                    let p = choose|p: Seq<Arc>| #[trigger] self.accepts(p) && fits(domains@, p) && i < p.len() && p[i].letter == v;
                    assert(g.is_full_path(p));
                }
                if keep_g(i, v) {
                    let p = choose|p: Seq<Arc>| #[trigger] g.is_full_path(p) && fits(domains@, p) && i < p.len() && p[i].letter == v;
                    assert(self.accepts(p));
                }
            }
            assert(keep =~= keep_g);
            if result is Prune {
                let rs = result->Prune_0;
                assert forall|k: int, pr: (usize, Letter)| 0 <= k < rs@.len()
                    && #[trigger] rs@[k].reason@.contains(pr) implies
                    pr.0 != rs@[k].variable && pr.0 < self.len() && !domains@[pr.0 as int]@.contains(pr.1) by {
                    assert(justifies(g, domains@, rs@[k].variable as int, rs@[k].value, rs@[k].reason@.to_set()));
                    assert(rs@[k].reason@.to_set().contains(pr));
                }
                assert forall|k: int, p: Seq<Arc>| 0 <= k < rs@.len()
                    && #[trigger] self.accepts(p) && (#[trigger] rs@[k]).variable < p.len() && p[rs@[k].variable as int].letter == rs@[k].value
                    implies exists|j: int| 0 <= j < p.len() && j != rs@[k].variable
                        && rs@[k].reason@.contains((j as usize, #[trigger] p[j].letter)) by {
                    assert(justifies(g, domains@, rs@[k].variable as int, rs@[k].value, rs@[k].reason@.to_set()));
                    assert(g.is_full_path(p));
                    let j = choose|j: int| 0 <= j < p.len() && j != rs@[k].variable
                        && rs@[k].reason@.to_set().contains((j as usize, #[trigger] p[j].letter));
                    assert(rs@[k].reason@.contains((j as usize, p[j].letter)));
                }
            }
            if result is Conflict {
            let r = result->Conflict_0;
            assert forall|i: usize, v: Letter| #[trigger] r@.contains((i, v)) <==> (i < self.len()
                && !domains@[i as int]@.contains(v)
                && exists|p: Seq<Arc>| #[trigger] self.accepts(p) && fits_before(domains@, p, i as int)
                    && (i as int) < p.len() && p[i as int].letter == v) by {
                if exists|p: Seq<Arc>| #[trigger] self.accepts(p) && fits_before(domains@, p, i as int)
                    && (i as int) < p.len() && p[i as int].letter == v {
                    let p = choose|p: Seq<Arc>| #[trigger] self.accepts(p) && fits_before(domains@, p, i as int)
                        && (i as int) < p.len() && p[i as int].letter == v;
                    assert(g.is_full_path(p));
                }
                if exists|p: Seq<Arc>| #[trigger] g.is_full_path(p) && fits_before(domains@, p, i as int)
                    && (i as int) < p.len() && p[i as int].letter == v {
                    let p = choose|p: Seq<Arc>| #[trigger] g.is_full_path(p) && fits_before(domains@, p, i as int)
                        && (i as int) < p.len() && p[i as int].letter == v;
                    assert(self.accepts(p));
                }
            }
            }
        }
        proof {
            if result is Prune {
                let g = self.internal_graph;
                let rs = result->Prune_0;
                assert forall|k: int, pr: (usize, Letter)| 0 <= k < rs@.len() && #[trigger] rs@[k].reason@.contains(pr) implies
                    exists|p: Seq<Arc>, j: int| #![trigger self.accepts(p), p[j]] self.accepts(p) && 0 <= j < p.len()
                        && j != rs@[k].variable && p[j].pair() == pr
                        && (rs@[k].variable as int) < p.len() && p[rs@[k].variable as int].letter == rs@[k].value by {
                    let (p, j) = choose|p: Seq<Arc>, j: int| #![trigger g.is_full_path(p), p[j]] g.is_full_path(p) && 0 <= j < p.len()
                        && j != rs@[k].variable && p[j].pair() == pr
                        && (rs@[k].variable as int) < p.len() && p[rs@[k].variable as int].letter == rs@[k].value;
                    assert(self.accepts(p));
                }
                assert forall|k: int| 0 <= k < rs@.len()
                    && !(exists|p: Seq<Arc>| #[trigger] self.accepts(p) && (rs@[k].variable as int) < p.len()
                        && p[rs@[k].variable as int].letter == rs@[k].value)
                    implies (#[trigger] rs@[k]).reason@.len() == 0 by {
                    if rs@[k].reason@.len() > 0 {
                        let pr = rs@[k].reason@[0];
                        assert(rs@[k].reason@.contains(pr));
                        let (p, j) = choose|p: Seq<Arc>, j: int| #![trigger g.is_full_path(p), p[j]] g.is_full_path(p) && 0 <= j < p.len()
                            && j != rs@[k].variable && p[j].pair() == pr
                            && (rs@[k].variable as int) < p.len() && p[rs@[k].variable as int].letter == rs@[k].value;
                        assert(self.accepts(p));
                    }
                }
            }
        }
        result
    }
}

// ------------------------------------------------------------------ laws

/// The pairs pruned from the first `k` variables are the values of their
/// domains that `keep` rejects.
pub proof fn lemma_prunes_contains(keep: spec_fn(int, Letter) -> bool, domains: Seq<Vec<Letter>>, k: int, i: usize, v: Letter)
    requires
        0 <= k <= domains.len(),
        domains.len() <= usize::MAX,
    ensures
        prunes(keep, domains, k).contains((i, v)) <==> i < k && domains[i as int]@.contains(v) && !keep(i as int, v),
    decreases k,
{
    if k > 0 {
        lemma_prunes_contains(keep, domains, k - 1, i, v);
        lemma_row_prunes_contains(keep, k - 1, domains[k - 1]@, i, v);
        let a = prunes(keep, domains, k - 1);
        let b = row_prunes(keep, k - 1, domains[k - 1]@);
        lemma_concat_contains(a, b, (i, v));
    }
}

proof fn lemma_row_prunes_contains(keep: spec_fn(int, Letter) -> bool, idx: int, row: Seq<Letter>, i: usize, v: Letter)
    requires
        0 <= idx <= usize::MAX,
    ensures
        row_prunes(keep, idx, row).contains((i, v)) <==> i == idx && row.contains(v) && !keep(idx, v),
    decreases row.len(),
{
    if row.len() > 0 {
        lemma_row_prunes_contains(keep, idx, row.drop_last(), i, v);
        let rest = row_prunes(keep, idx, row.drop_last());
        lemma_push_contains(rest, (idx as usize, row.last()), (i, v));
        lemma_push_contains(row.drop_last(), row.last(), v);
        assert(row == row.drop_last().push(row.last()));
    }
}

proof fn lemma_concat_contains<A>(a: Seq<A>, b: Seq<A>, x: A)
    ensures
        (a + b).contains(x) <==> a.contains(x) || b.contains(x),
{
    if (a + b).contains(x) {
        let k = choose|k: int| 0 <= k < (a + b).len() && (a + b)[k] == x;
        if k < a.len() {
            assert(a[k] == x);
        } else {
            assert(b[k - a.len()] == x);
        }
    }
    if a.contains(x) {
        let k = choose|k: int| 0 <= k < a.len() && a[k] == x;
        assert((a + b)[k] == x);
    }
    if b.contains(x) {
        let k = choose|k: int| 0 <= k < b.len() && b[k] == x;
        assert((a + b)[a.len() + k] == x);
    }
}

/// `after` is `before` with the `(variable, value)` pairs removed.
pub open spec fn applied(before: Seq<Vec<Letter>>, pairs: Seq<(usize, Letter)>, after: Seq<Vec<Letter>>) -> bool {
    &&& after.len() == before.len()
    &&& forall|i: int, v: Letter| 0 <= i < before.len() ==>
        (#[trigger] after[i]@.contains(v) <==> before[i]@.contains(v) && !pairs.contains((i as usize, v)))
}

/// Some accepted word that fits the domains has `v` as its `i`-th letter.
pub open spec fn supported_by(accepts: spec_fn(Seq<Arc>) -> bool, domains: Seq<Vec<Letter>>, i: int, v: Letter) -> bool {
    exists|p: Seq<Arc>| #[trigger] accepts(p) && fits(domains, p) && i < p.len() && p[i].letter == v
}

/// Pruning by support loses no accepted word and leaves every kept value supported.
proof fn lemma_pruning(
    accepts: spec_fn(Seq<Arc>) -> bool,
    domains: Seq<Vec<Letter>>,
    pruned: Seq<Vec<Letter>>,
    n: nat,
)
    requires
        domains.len() == n,
        n <= usize::MAX,
        forall|p: Seq<Arc>| #[trigger] accepts(p) ==> p.len() == n,
        applied(domains, prunes(|i: int, v: Letter| supported_by(accepts, domains, i, v), domains, n as int), pruned),
    ensures
        forall|p: Seq<Arc>| #[trigger] accepts(p) && fits(domains, p) ==> fits(pruned, p),
        forall|i: int, v: Letter| 0 <= i < n && #[trigger] pruned[i]@.contains(v) ==> supported_by(accepts, pruned, i, v),
{
    let keep = |i: int, v: Letter| supported_by(accepts, domains, i, v);
    assert forall|p: Seq<Arc>| #[trigger] accepts(p) && fits(domains, p) implies fits(pruned, p) by {
        assert forall|j: int| 0 <= j < p.len() && j < p.len() implies #[trigger] pruned[j]@.contains(p[j].letter) by {
            assert(domains[j]@.contains(p[j].letter));
            assert(keep(j, p[j].letter));
            lemma_prunes_contains(keep, domains, n as int, j as usize, p[j].letter);
        }
    }
    assert forall|i: int, v: Letter| 0 <= i < n && #[trigger] pruned[i]@.contains(v) implies supported_by(accepts, pruned, i, v) by {
        lemma_prunes_contains(keep, domains, n as int, i as usize, v);
        assert(keep(i, v));
        let p = choose|p: Seq<Arc>| #[trigger] accepts(p) && fits(domains, p) && i < p.len() && p[i].letter == v;
        assert(fits(pruned, p));
    }
}

impl<Var> RegularPropagator<Var> {
    /// Pruning loses no solution: an accepted word that fits the domains still
    /// fits them once the values the propagator prunes are removed.
    pub proof fn lemma_pruning_keeps_words(self, domains: Seq<Vec<Letter>>, pruned: Seq<Vec<Letter>>, p: Seq<Arc>)
        requires
            self.wf(),
            domains.len() == self.len(),
            applied(domains, prunes(|i: int, v: Letter| exists|q: Seq<Arc>| #[trigger] self.accepts(q) && fits(domains, q)
                && i < q.len() && q[i].letter == v, domains, self.len() as int), pruned),
            self.accepts(p),
            fits(domains, p),
        ensures
            fits(pruned, p),
    {
        self.lemma_pruning_laws(domains, pruned);
    }

    /// Pruning reaches a fixpoint: every value left once the pruned values are
    /// removed lies on an accepted word that fits the remaining domains, so a
    /// second propagation prunes nothing.
    pub proof fn lemma_pruning_is_complete(self, domains: Seq<Vec<Letter>>, pruned: Seq<Vec<Letter>>, i: int, v: Letter)
        requires
            self.wf(),
            domains.len() == self.len(),
            applied(domains, prunes(|i: int, v: Letter| exists|q: Seq<Arc>| #[trigger] self.accepts(q) && fits(domains, q)
                && i < q.len() && q[i].letter == v, domains, self.len() as int), pruned),
            0 <= i < self.len(),
            pruned[i]@.contains(v),
        ensures
            exists|q: Seq<Arc>| #[trigger] self.accepts(q) && fits(pruned, q) && i < q.len() && q[i].letter == v,
    {
        self.lemma_pruning_laws(domains, pruned);
    }

    proof fn lemma_pruning_laws(self, domains: Seq<Vec<Letter>>, pruned: Seq<Vec<Letter>>)
        requires
            self.wf(),
            domains.len() == self.len(),
            applied(domains, prunes(|i: int, v: Letter| exists|q: Seq<Arc>| #[trigger] self.accepts(q) && fits(domains, q)
                && i < q.len() && q[i].letter == v, domains, self.len() as int), pruned),
        ensures
            forall|p: Seq<Arc>| #[trigger] self.accepts(p) && fits(domains, p) ==> fits(pruned, p),
            forall|i: int, v: Letter| 0 <= i < self.len() && #[trigger] pruned[i]@.contains(v) ==>
                exists|q: Seq<Arc>| #[trigger] self.accepts(q) && fits(pruned, q) && i < q.len() && q[i].letter == v,
    {
        let accepts = |q: Seq<Arc>| self.accepts(q);
        assert(accepts == |q: Seq<Arc>| self.internal_graph.is_full_path(q));
        assert forall|q: Seq<Arc>| #[trigger] accepts(q) implies q.len() == self.len() by {
            self.internal_graph.lemma_full_path_len(q);
        }
        let keep = |i: int, v: Letter| exists|q: Seq<Arc>| #[trigger] self.accepts(q) && fits(domains, q)
            && i < q.len() && q[i].letter == v;
        assert forall|i: int, v: Letter| #[trigger] keep(i, v) == supported_by(accepts, domains, i, v) by {
            if keep(i, v) {
                let q = choose|q: Seq<Arc>| #[trigger] self.accepts(q) && fits(domains, q) && i < q.len() && q[i].letter == v;
                assert(accepts(q));
            }
            if supported_by(accepts, domains, i, v) {
                let q = choose|q: Seq<Arc>| #[trigger] accepts(q) && fits(domains, q) && i < q.len() && q[i].letter == v;
                assert(self.accepts(q));
            }
        }
        assert(keep =~= (|i: int, v: Letter| supported_by(accepts, domains, i, v)));
        assert(self.len() <= usize::MAX) by {
            vstd::std_specs::vec::axiom_spec_len(&self.sequence);
        }
        lemma_pruning(accepts, domains, pruned, self.len());
        assert forall|p: Seq<Arc>| #[trigger] self.accepts(p) && fits(domains, p) implies fits(pruned, p) by {
            assert(accepts(p));
        }
        assert forall|i: int, v: Letter| 0 <= i < self.len() && #[trigger] pruned[i]@.contains(v) implies
            exists|q: Seq<Arc>| #[trigger] self.accepts(q) && fits(pruned, q) && i < q.len() && q[i].letter == v by {
            assert(supported_by(accepts, pruned, i, v));
            let q = choose|q: Seq<Arc>| #[trigger] accepts(q) && fits(pruned, q) && i < q.len() && q[i].letter == v;
            assert(self.accepts(q));
        }
    }
}

impl<Var> RegularNfaPropagator<Var> {
    /// Pruning loses no solution: an accepted word that fits the domains still
    /// fits them once the values the propagator prunes are removed.
    pub proof fn lemma_pruning_keeps_words(self, domains: Seq<Vec<Letter>>, pruned: Seq<Vec<Letter>>, p: Seq<Arc>)
        requires
            self.wf(),
            domains.len() == self.len(),
            applied(domains, prunes(|i: int, v: Letter| exists|q: Seq<Arc>| #[trigger] self.accepts(q) && fits(domains, q)
                && i < q.len() && q[i].letter == v, domains, self.len() as int), pruned),
            self.accepts(p),
            fits(domains, p),
        ensures
            fits(pruned, p),
    {
        self.lemma_pruning_laws(domains, pruned);
    }

    /// Pruning reaches a fixpoint: every value left once the pruned values are
    /// removed lies on an accepted word that fits the remaining domains, so a
    /// second propagation prunes nothing.
    pub proof fn lemma_pruning_is_complete(self, domains: Seq<Vec<Letter>>, pruned: Seq<Vec<Letter>>, i: int, v: Letter)
        requires
            self.wf(),
            domains.len() == self.len(),
            applied(domains, prunes(|i: int, v: Letter| exists|q: Seq<Arc>| #[trigger] self.accepts(q) && fits(domains, q)
                && i < q.len() && q[i].letter == v, domains, self.len() as int), pruned),
            0 <= i < self.len(),
            pruned[i]@.contains(v),
        ensures
            exists|q: Seq<Arc>| #[trigger] self.accepts(q) && fits(pruned, q) && i < q.len() && q[i].letter == v,
    {
        self.lemma_pruning_laws(domains, pruned);
    }

    proof fn lemma_pruning_laws(self, domains: Seq<Vec<Letter>>, pruned: Seq<Vec<Letter>>)
        requires
            self.wf(),
            domains.len() == self.len(),
            applied(domains, prunes(|i: int, v: Letter| exists|q: Seq<Arc>| #[trigger] self.accepts(q) && fits(domains, q)
                && i < q.len() && q[i].letter == v, domains, self.len() as int), pruned),
        ensures
            forall|p: Seq<Arc>| #[trigger] self.accepts(p) && fits(domains, p) ==> fits(pruned, p),
            forall|i: int, v: Letter| 0 <= i < self.len() && #[trigger] pruned[i]@.contains(v) ==>
                exists|q: Seq<Arc>| #[trigger] self.accepts(q) && fits(pruned, q) && i < q.len() && q[i].letter == v,
    {
        let accepts = |q: Seq<Arc>| self.accepts(q);
        assert(accepts == |q: Seq<Arc>| self.internal_graph.is_full_path(q));
        assert forall|q: Seq<Arc>| #[trigger] accepts(q) implies q.len() == self.len() by {
            self.internal_graph.lemma_full_path_len(q);
        }
        let keep = |i: int, v: Letter| exists|q: Seq<Arc>| #[trigger] self.accepts(q) && fits(domains, q)
            && i < q.len() && q[i].letter == v;
        assert forall|i: int, v: Letter| #[trigger] keep(i, v) == supported_by(accepts, domains, i, v) by {
            if keep(i, v) {
                let q = choose|q: Seq<Arc>| #[trigger] self.accepts(q) && fits(domains, q) && i < q.len() && q[i].letter == v;
                assert(accepts(q));
            }
            if supported_by(accepts, domains, i, v) {
                let q = choose|q: Seq<Arc>| #[trigger] accepts(q) && fits(domains, q) && i < q.len() && q[i].letter == v;
                assert(self.accepts(q));
            }
        }
        assert(keep =~= (|i: int, v: Letter| supported_by(accepts, domains, i, v)));
        assert(self.len() <= usize::MAX) by {
            vstd::std_specs::vec::axiom_spec_len(&self.sequence);
        }
        lemma_pruning(accepts, domains, pruned, self.len());
        assert forall|p: Seq<Arc>| #[trigger] self.accepts(p) && fits(domains, p) implies fits(pruned, p) by {
            assert(accepts(p));
        }
        assert forall|i: int, v: Letter| 0 <= i < self.len() && #[trigger] pruned[i]@.contains(v) implies
            exists|q: Seq<Arc>| #[trigger] self.accepts(q) && fits(pruned, q) && i < q.len() && q[i].letter == v by {
            assert(supported_by(accepts, pruned, i, v));
            let q = choose|q: Seq<Arc>| #[trigger] accepts(q) && fits(pruned, q) && i < q.len() && q[i].letter == v;
            assert(self.accepts(q));
        }
    }
}

/// The checker and the propagator of one DFA constraint agree: over a nonempty
/// sequence, the checker finds a conflict in the domains exactly when the
/// propagator does.
pub proof fn lemma_checker_agrees<Var>(
    c: RegularPropagatorConstructor<Var>,
    prop: RegularPropagator<Var>,
    checker: RegularChecker<Var>,
    domains: Seq<Vec<Letter>>,
)
    requires
        prop.wf(),
        prop.len() == c.sequence@.len(),
        forall|p: Seq<Arc>| #[trigger] prop.accepts(p) <==> c.accepts(p),
        checker.sequence@.len() == c.sequence@.len(),
        forall|p: Seq<Arc>| #[trigger] checker.dfa.accepts_run(c.sequence@.len() as nat, p) <==> c.accepts(p),
        domains.len() == c.sequence@.len(),
        c.sequence@.len() > 0,
    ensures
        !(prop.len() > 0 && exists|p: Seq<Arc>| #[trigger] prop.accepts(p) && fits(domains, p))
            <==> !exists|p: Seq<Arc>| #[trigger] checker.dfa.accepts_run(checker.sequence@.len() as nat, p)
                && fits(domains, p),
{
    let n = checker.sequence@.len() as nat;
    if exists|p: Seq<Arc>| #[trigger] prop.accepts(p) && fits(domains, p) {
        let p = choose|p: Seq<Arc>| #[trigger] prop.accepts(p) && fits(domains, p);
        assert(checker.dfa.accepts_run(n, p));
    }
    if exists|p: Seq<Arc>| #[trigger] checker.dfa.accepts_run(n, p) && fits(domains, p) {
        let p = choose|p: Seq<Arc>| #[trigger] checker.dfa.accepts_run(n, p) && fits(domains, p);
        assert(prop.accepts(p));
    }
}

/// The checker and the propagator of one NFA constraint agree: over a nonempty
/// sequence, the checker finds a conflict in the domains exactly when the
/// propagator does.
pub proof fn lemma_nfa_checker_agrees<Var>(
    c: RegularNfaPropagatorConstructor<Var>,
    prop: RegularNfaPropagator<Var>,
    checker: RegularNfaChecker<Var>,
    domains: Seq<Vec<Letter>>,
)
    requires
        prop.wf(),
        prop.len() == c.sequence@.len(),
        forall|p: Seq<Arc>| #[trigger] prop.accepts(p) <==> c.accepts(p),
        checker.sequence@.len() == c.sequence@.len(),
        forall|p: Seq<Arc>| #[trigger] checker.nfa.accepts_run(c.sequence@.len() as nat, p) <==> c.accepts(p),
        domains.len() == c.sequence@.len(),
        c.sequence@.len() > 0,
    ensures
        !(prop.len() > 0 && exists|p: Seq<Arc>| #[trigger] prop.accepts(p) && fits(domains, p))
            <==> !exists|p: Seq<Arc>| #[trigger] checker.nfa.accepts_run(checker.sequence@.len() as nat, p)
                && fits(domains, p),
{
    let n = checker.sequence@.len() as nat;
    if exists|p: Seq<Arc>| #[trigger] prop.accepts(p) && fits(domains, p) {
        let p = choose|p: Seq<Arc>| #[trigger] prop.accepts(p) && fits(domains, p);
        assert(checker.nfa.accepts_run(n, p));
    }
    if exists|p: Seq<Arc>| #[trigger] checker.nfa.accepts_run(n, p) && fits(domains, p) {
        let p = choose|p: Seq<Arc>| #[trigger] checker.nfa.accepts_run(n, p) && fits(domains, p);
        assert(prop.accepts(p));
    }
}

/// The DFA and the NFA propagator over one graph and one sequence length answer
/// alike: they accept the same words and give the same explanations, so their
/// `propagate_from_scratch` contracts fix the same verdict, the same conflict
/// pairs, the same pruned values in the same order and the same reasons.
pub proof fn lemma_same_graph_same_answers<Var>(dfa_prop: RegularPropagator<Var>, nfa_prop: RegularNfaPropagator<Var>)
    requires
        dfa_prop.graph() == nfa_prop.graph(),
        dfa_prop.len() == nfa_prop.len(),
    ensures
        forall|p: Seq<Arc>| #[trigger] dfa_prop.accepts(p) == nfa_prop.accepts(p),
        forall|domains: Seq<Vec<Letter>>, idx: int, v: Letter|
            #[trigger] dfa_prop.explanation(domains, idx, v) == nfa_prop.explanation(domains, idx, v),
{
}

/// Pushing `x` adds exactly `x`.
pub proof fn lemma_push_contains<A>(s: Seq<A>, x: A, y: A)
    ensures
        s.push(x).contains(y) <==> s.contains(y) || y == x,
{
    if s.push(x).contains(y) && y != x {
        let k = choose|k: int| 0 <= k < s.push(x).len() && #[trigger] s.push(x)[k] == y;
        assert(s[k] == y);
    }
    if s.contains(y) {
        let k = choose|k: int| 0 <= k < s.len() && #[trigger] s[k] == y;
        assert(s.push(x)[k] == y);
    }
    assert(s.push(x)[s.len() as int] == x);
}

} // verus!
