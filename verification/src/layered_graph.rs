//! The layered graph of an automaton unrolled over a sequence of variables:
//! layer `i` holds the automaton states that can be occupied before the `i`-th
//! variable is read, and an arc from layer `i` to layer `i + 1` is a transition
//! taken by the `i`-th variable.  Arcs and nodes are killed as the variables'
//! domains shrink; the living arcs are exactly those on an accepting path whose
//! letters are all still in their variables' domains.

use std::collections::VecDeque;

use vstd::prelude::*;

use crate::Letter;
use crate::automaton::{contains_usize, NFA, DFA, reaches, co_reaches, is_run, run_state, is_suffix_run,
    is_accepting_run, lemma_run_push, lemma_run_last, lemma_suffix_prepend, lemma_suffix_tail, lemma_join_runs,
    lemma_split_run};

verus! {

/// A node of the layered graph: an automaton state in a layer (layer `i` is
/// the position before the `i`-th variable).
#[derive(Debug, Clone, Copy, PartialEq, Eq, Structural, Hash)]
pub struct Node {
    pub layer: usize,
    pub state: usize,
}

/// An arc of the layered graph: a transition taken by the variable at `start_layer`.
#[derive(Debug, Clone, Copy, PartialEq, Eq, Structural, Hash)]
pub struct Arc {
    pub start_layer: usize,
    pub start_state: usize,
    pub end_state: usize,
    pub letter: Letter,
}

impl Arc {
    /// The (variable, letter) assignment the arc stands for.
    pub open spec fn pair(self) -> (usize, Letter) {
        (self.start_layer, self.letter)
    }

    pub open spec fn start_spec(self) -> Node {
        Node { layer: self.start_layer, state: self.start_state }
    }

    pub open spec fn end_spec(self) -> Node {
        Node { layer: (self.start_layer + 1) as usize, state: self.end_state }
    }

    /// The node the arc leaves.
    pub fn start(&self) -> (n: Node)
        ensures
            n == self.start_spec(),
    {
        Node { layer: self.start_layer, state: self.start_state }
    }

    /// The node the arc enters.
    pub fn end(&self) -> (n: Node)
        requires
            self.start_layer < usize::MAX,
        ensures
            n == self.end_spec(),
    {
        Node { layer: self.start_layer + 1, state: self.end_state }
    }
}

/// Which neighbours of a killed arc (or node) are to be re-examined.
#[derive(Debug, Clone, Copy, PartialEq, Eq, Structural)]
pub enum Direction {
    Neither,
    Forward,
    Backward,
    Both,
}

impl Direction {
    pub open spec fn fwd(self) -> bool {
        self is Forward || self is Both
    }

    pub open spec fn bwd(self) -> bool {
        self is Backward || self is Both
    }

    /// Whether the end side is to be re-examined.
    pub fn forward(&self) -> (b: bool)
        ensures
            b == self.fwd(),
    {
        match self {
            Direction::Forward | Direction::Both => true,
            _ => false,
        }
    }

    /// Whether the start side is to be re-examined.
    pub fn backward(&self) -> (b: bool)
        ensures
            b == self.bwd(),
    {
        match self {
            Direction::Backward | Direction::Both => true,
            _ => false,
        }
    }
}

/// The number of `true` entries.
pub open spec fn count_true(s: Seq<bool>) -> nat
    decreases s.len(),
{
    if s.len() == 0 {
        0
    } else {
        count_true(s.drop_last()) + if s.last() { 1nat } else { 0nat }
    }
}

proof fn lemma_count_true_update_false(s: Seq<bool>, i: int)
    requires
        0 <= i < s.len(),
        s[i],
    ensures
        count_true(s.update(i, false)) + 1 == count_true(s),
    decreases s.len(),
{
    let t = s.update(i, false);
    if i == s.len() - 1 {
        assert(t.drop_last() =~= s.drop_last());
    } else {
        assert(t.drop_last() =~= s.drop_last().update(i, false));
        lemma_count_true_update_false(s.drop_last(), i);
    }
}

proof fn lemma_count_true_update_true(s: Seq<bool>, i: int)
    requires
        0 <= i < s.len(),
        !s[i],
    ensures
        count_true(s.update(i, true)) == count_true(s) + 1,
    decreases s.len(),
{
    let t = s.update(i, true);
    if i == s.len() - 1 {
        assert(t.drop_last() =~= s.drop_last());
    } else {
        assert(t.drop_last() =~= s.drop_last().update(i, true));
        lemma_count_true_update_true(s.drop_last(), i);
    }
}

proof fn lemma_count_true_bound(s: Seq<bool>)
    ensures
        count_true(s) <= s.len(),
    decreases s.len(),
{
    if s.len() > 0 {
        lemma_count_true_bound(s.drop_last());
    }
}

proof fn lemma_count_true_mono(a: Seq<bool>, b: Seq<bool>)
    requires
        a.len() == b.len(),
        forall|i: int| 0 <= i < a.len() ==> a[i] ==> b[i],
    ensures
        count_true(a) <= count_true(b),
    decreases a.len(),
{
    if a.len() > 0 {
        lemma_count_true_mono(a.drop_last(), b.drop_last());
    }
}

/// The layered graph.
#[derive(Debug, Clone)]
pub struct LayeredGraph {
    alphabet: Vec<Letter>,
    /// Number of layers: one more than the number of variables.
    layer_count: usize,
    /// The nodes of all layers, each once.
    nodes: Vec<Node>,
    /// `node_life[j]`: whether `nodes[j]` is alive.
    node_life: Vec<bool>,
    /// The arcs, each once.
    arcs: Vec<Arc>,
    /// `arc_life[i]`: whether `arcs[i]` is alive.
    arc_life: Vec<bool>,
    accepting: Vec<usize>,
    starting: usize,
    /// `domain[i]`: the letters the `i`-th variable may still take, each once.
    domain: Vec<Vec<Letter>>,
    state_count: usize,
}

impl LayeredGraph {
    // ---------------------------------------------------------------- views

    /// Number of layers.
    pub closed spec fn layers(self) -> nat {
        self.layer_count as nat
    }

    /// The letters still allowed for the `j`-th variable.
    pub closed spec fn domain_of(self, j: int) -> Set<Letter> {
        self.domain@[j]@.to_set()
    }

    /// The nodes of the graph.
    pub closed spec fn node_set(self) -> Set<Node> {
        self.nodes@.to_set()
    }

    pub closed spec fn has_arc(self, a: Arc) -> bool {
        self.arcs@.contains(a)
    }

    pub closed spec fn has_node(self, n: Node) -> bool {
        self.nodes@.contains(n)
    }

    pub closed spec fn arc_alive(self, a: Arc) -> bool {
        exists|i: int| 0 <= i < self.arcs@.len() && self.arcs@[i] == a && #[trigger] self.arc_life@[i]
    }

    pub closed spec fn node_alive(self, n: Node) -> bool {
        exists|j: int| 0 <= j < self.nodes@.len() && self.nodes@[j] == n && #[trigger] self.node_life@[j]
    }

    /// The state a path is in after `l` letters.
    pub closed spec fn path_state(self, p: Seq<Arc>, l: int) -> usize {
        if l == 0 { self.starting } else { p[l - 1].end_state }
    }

    /// `p` is a path of arcs of the graph from the starting node of the first
    /// layer to an accepting node of the last layer.
    pub closed spec fn is_full_path(self, p: Seq<Arc>) -> bool {
        &&& p.len() + 1 == self.layer_count
        &&& forall|j: int| 0 <= j < p.len() ==> (#[trigger] p[j]).start_layer == j
        &&& forall|j: int| 0 <= j < p.len() ==> self.arcs@.contains(#[trigger] p[j])
        &&& p.len() > 0 ==> p[0].start_state == self.starting
        &&& forall|j: int| 0 <= j < p.len() - 1 ==> (#[trigger] p[j]).end_state == p[j + 1].start_state
        &&& self.accepting@.contains(self.path_state(p, p.len() as int))
    }

    /// Every letter of `p` is still in its variable's domain.
    pub closed spec fn path_in_domain(self, p: Seq<Arc>) -> bool {
        &&& p.len() <= self.domain@.len()
        &&& forall|j: int| 0 <= j < p.len() ==> #[trigger] self.domain@[j]@.contains(p[j].letter)
    }

    /// Every arc of `p` is alive.
    pub closed spec fn path_alive(self, p: Seq<Arc>) -> bool {
        forall|j: int| 0 <= j < p.len() ==> self.arc_alive(#[trigger] p[j])
    }

    /// `n` lies on the path `p`.
    pub closed spec fn node_on(self, p: Seq<Arc>, n: Node) -> bool {
        n.layer <= p.len() && self.path_state(p, n.layer as int) == n.state
    }

    /// The arc `a` lies on a full path whose letters are all in their domains.
    pub open spec fn supported_arc(self, a: Arc) -> bool {
        exists|p: Seq<Arc>|
            #[trigger] self.is_full_path(p) && self.path_in_domain(p) && a.start_layer < p.len()
                && p[a.start_layer as int] == a
    }

    /// Some full path has all its letters in their domains.
    pub closed spec fn has_solution(self) -> bool {
        exists|p: Seq<Arc>| #[trigger] self.is_full_path(p) && self.path_in_domain(p)
    }

    // ------------------------------------------------------------ invariant

    spec fn is_first(self, n: Node) -> bool {
        n.layer == 0 && n.state == self.starting
    }

    spec fn is_last(self, n: Node) -> bool {
        n.layer + 1 == self.layer_count && self.accepting@.contains(n.state)
    }

    spec fn has_alive_in(self, n: Node) -> bool {
        exists|i: int| 0 <= i < self.arcs@.len() && #[trigger] self.arc_life@[i] && self.arcs@[i].end_spec() == n
    }

    spec fn has_alive_out(self, n: Node) -> bool {
        exists|i: int| 0 <= i < self.arcs@.len() && #[trigger] self.arc_life@[i] && self.arcs@[i].start_spec() == n
    }

    /// A living node needs a living arc in (unless it starts) and out (unless it accepts).
    spec fn supported(self, n: Node) -> bool {
        &&& (self.is_first(n) || self.has_alive_in(n))
        &&& (self.is_last(n) || self.has_alive_out(n))
    }

    spec fn structure(self) -> bool {
        &&& 1 <= self.layer_count < usize::MAX
        &&& self.node_life@.len() == self.nodes@.len()
        &&& self.arc_life@.len() == self.arcs@.len()
        &&& self.nodes@.no_duplicates()
        &&& self.arcs@.no_duplicates()
        &&& forall|j: int| 0 <= j < self.nodes@.len() ==> (#[trigger] self.nodes@[j]).layer < self.layer_count
        &&& forall|i: int| 0 <= i < self.arcs@.len() ==> (#[trigger] self.arcs@[i]).start_layer + 1 < self.layer_count
        &&& forall|i: int| 0 <= i < self.arcs@.len() ==> self.nodes@.contains((#[trigger] self.arcs@[i]).start_spec())
        &&& forall|i: int| 0 <= i < self.arcs@.len() ==> self.nodes@.contains((#[trigger] self.arcs@[i]).end_spec())
        &&& self.domain@.len() + 1 == self.layer_count
        &&& forall|j: int| 0 <= j < self.domain@.len() ==> (#[trigger] self.domain@[j])@.no_duplicates()
    }

    /// No living arc touches a dead node.
    spec fn no_dangling(self) -> bool {
        forall|i: int| 0 <= i < self.arcs@.len() && #[trigger] self.arc_life@[i] ==>
            self.node_alive(self.arcs@[i].start_spec()) && self.node_alive(self.arcs@[i].end_spec())
    }

    /// Every living node is supported.
    spec fn all_supported(self) -> bool {
        forall|j: int| 0 <= j < self.nodes@.len() && #[trigger] self.node_life@[j] ==> self.supported(self.nodes@[j])
    }

    /// Exactly the arcs on full paths within the domains are alive.
    spec fn alive_iff_supported(self) -> bool {
        forall|i: int| 0 <= i < self.arcs@.len() ==> (#[trigger] self.arc_life@[i] <==> self.supported_arc(self.arcs@[i]))
    }

    /// The graph's invariant.
    pub closed spec fn wf(self) -> bool {
        &&& self.structure()
        &&& self.no_dangling()
        &&& self.all_supported()
        &&& self.alive_iff_supported()
    }

    /// Everything but the life flags and the domains is the same in `self` and `other`.
    pub closed spec fn same_shape(self, other: LayeredGraph) -> bool {
        &&& self.alphabet@ == other.alphabet@
        &&& self.layer_count == other.layer_count
        &&& self.nodes@ == other.nodes@
        &&& self.arcs@ == other.arcs@
        &&& self.accepting@ == other.accepting@
        &&& self.starting == other.starting
        &&& self.state_count == other.state_count
        &&& self.node_life@.len() == other.node_life@.len()
        &&& self.arc_life@.len() == other.arc_life@.len()
    }

    /// `self` and `other` hold the same graph, life flags and domains.
    pub closed spec fn same_state(self, other: LayeredGraph) -> bool {
        &&& self.same_shape(other)
        &&& self.node_life@ == other.node_life@
        &&& self.arc_life@ == other.arc_life@
        &&& self.domain@.len() == other.domain@.len()
        &&& forall|j: int| 0 <= j < self.domain@.len() ==> (#[trigger] self.domain@[j])@ == other.domain@[j]@
    }

    /// No arc or node came back to life between `old` and `self`.
    spec fn life_shrinks(self, old: LayeredGraph) -> bool {
        &&& forall|i: int| 0 <= i < self.arc_life@.len() && #[trigger] self.arc_life@[i] ==> old.arc_life@[i]
        &&& forall|j: int| 0 <= j < self.node_life@.len() && #[trigger] self.node_life@[j] ==> old.node_life@[j]
    }

    /// Any node (other than `except`) that died between `old` and `self` has no living arc left.
    spec fn dead_are_isolated(self, old: LayeredGraph, except: Option<Node>) -> bool {
        forall|j: int, i: int|
            #![trigger self.node_life@[j], self.arc_life@[i]]
            0 <= j < self.nodes@.len() && old.node_life@[j] && !self.node_life@[j] && 0 <= i < self.arcs@.len()
                && except != Some(self.nodes@[j])
                && (self.arcs@[i].start_spec() == self.nodes@[j] || self.arcs@[i].end_spec() == self.nodes@[j])
                ==> !self.arc_life@[i]
    }

    /// Every node alive and unsupported in `self` was already so in `old`.
    spec fn no_new_unsupported(self, old: LayeredGraph) -> bool {
        forall|j: int| 0 <= j < self.nodes@.len() && #[trigger] self.node_life@[j] && !self.supported(self.nodes@[j])
            ==> old.node_life@[j] && !old.supported(old.nodes@[j])
    }


    // -------------------------------------------------------------- lemmas

    proof fn lemma_arc_alive_at(self, i: int)
        requires
            self.structure(),
            0 <= i < self.arcs@.len(),
        ensures
            self.arc_alive(self.arcs@[i]) == self.arc_life@[i],
    {
        if self.arc_alive(self.arcs@[i]) {
            let k = choose|k: int| 0 <= k < self.arcs@.len() && self.arcs@[k] == self.arcs@[i] && #[trigger] self.arc_life@[k];
            assert(k == i);
        }
    }

    proof fn lemma_node_alive_at(self, j: int)
        requires
            self.structure(),
            0 <= j < self.nodes@.len(),
        ensures
            self.node_alive(self.nodes@[j]) == self.node_life@[j],
    {
        if self.node_alive(self.nodes@[j]) {
            let k = choose|k: int| 0 <= k < self.nodes@.len() && self.nodes@[k] == self.nodes@[j] && #[trigger] self.node_life@[k];
            assert(k == j);
        }
    }

    /// Killing the arc at `i` changes the support of its two end nodes only.
    proof fn lemma_support_after_arc_kill(g0: LayeredGraph, g1: LayeredGraph, i: int, n: Node)
        requires
            g0.structure(),
            0 <= i < g0.arcs@.len(),
            g1.arc_life@ == g0.arc_life@.update(i, false),
            g1.arcs@ == g0.arcs@,
            g1.starting == g0.starting,
            g1.accepting@ == g0.accepting@,
            g1.layer_count == g0.layer_count,
            n != g0.arcs@[i].start_spec(),
            n != g0.arcs@[i].end_spec(),
        ensures
            g1.supported(n) == g0.supported(n),
    {
        if g0.has_alive_in(n) {
            let k = choose|k: int| 0 <= k < g0.arcs@.len() && #[trigger] g0.arc_life@[k] && g0.arcs@[k].end_spec() == n;
            assert(g1.arc_life@[k]);
        }
        if g0.has_alive_out(n) {
            let k = choose|k: int| 0 <= k < g0.arcs@.len() && #[trigger] g0.arc_life@[k] && g0.arcs@[k].start_spec() == n;
            assert(g1.arc_life@[k]);
        }
        if g1.has_alive_in(n) {
            let k = choose|k: int| 0 <= k < g1.arcs@.len() && #[trigger] g1.arc_life@[k] && g1.arcs@[k].end_spec() == n;
            assert(g0.arc_life@[k]);
        }
        if g1.has_alive_out(n) {
            let k = choose|k: int| 0 <= k < g1.arcs@.len() && #[trigger] g1.arc_life@[k] && g1.arcs@[k].start_spec() == n;
            assert(g0.arc_life@[k]);
        }
    }

    /// The state of a full path after `j` letters is where its `j`-th arc starts.
    proof fn lemma_path_state_at(self, p: Seq<Arc>, j: int)
        requires
            self.is_full_path(p),
            0 <= j < p.len(),
        ensures
            self.path_state(p, j) == p[j].start_state,
            self.path_state(p, j + 1) == p[j].end_state,
    {
        if j > 0 {
            assert(p[j - 1].end_state == p[j].start_state);
        }
    }

    /// Both ends of an arc of a full path lie on the path.
    proof fn lemma_arc_ends_on_path(self, p: Seq<Arc>, j: int)
        requires
            self.is_full_path(p),
            0 <= j < p.len(),
        ensures
            self.node_on(p, p[j].start_spec()),
            self.node_on(p, p[j].end_spec()),
    {
        self.lemma_path_state_at(p, j);
    }

    /// A node on a full path of living arcs is supported.
    proof fn lemma_on_alive_path_supported(self, p: Seq<Arc>, n: Node)
        requires
            self.structure(),
            self.is_full_path(p),
            self.path_alive(p),
            self.node_on(p, n),
        ensures
            self.supported(n),
    {
        let l = n.layer as int;
        if l > 0 {
            self.lemma_path_state_at(p, l - 1);
            assert(self.arc_alive(p[l - 1]));
            let i = choose|i: int| 0 <= i < self.arcs@.len() && self.arcs@[i] == p[l - 1] && #[trigger] self.arc_life@[i];
            assert(self.arcs@[i].end_spec() == n);
        }
        if l < p.len() {
            self.lemma_path_state_at(p, l);
            assert(self.arc_alive(p[l]));
            let i = choose|i: int| 0 <= i < self.arcs@.len() && self.arcs@[i] == p[l] && #[trigger] self.arc_life@[i];
            assert(self.arcs@[i].start_spec() == n);
        }
    }

    /// Life only shrinks, the unsupported only shrink and the dead stay isolated, across two steps.
    proof fn lemma_steps_compose(g0: LayeredGraph, g1: LayeredGraph, g2: LayeredGraph, except: Option<Node>)
        requires
            g0.structure(),
            g1.same_shape(g0),
            g2.same_shape(g1),
            g1.life_shrinks(g0),
            g2.life_shrinks(g1),
            g1.no_new_unsupported(g0),
            g2.no_new_unsupported(g1),
            g1.dead_are_isolated(g0, except),
            g2.dead_are_isolated(g1, except),
        ensures
            g2.same_shape(g0),
            g2.life_shrinks(g0),
            g2.no_new_unsupported(g0),
            g2.dead_are_isolated(g0, except),
    {
        assert forall|j: int, i: int|
            #![trigger g2.node_life@[j], g2.arc_life@[i]]
            0 <= j < g2.nodes@.len() && g0.node_life@[j] && !g2.node_life@[j] && 0 <= i < g2.arcs@.len()
                && except != Some(g2.nodes@[j])
                && (g2.arcs@[i].start_spec() == g2.nodes@[j] || g2.arcs@[i].end_spec() == g2.nodes@[j])
                implies !g2.arc_life@[i] by {
            assert(g1.nodes@ == g2.nodes@);
            assert(g1.arcs@ == g2.arcs@);
            if g1.node_life@[j] {
                assert(!g2.arc_life@[i]);
            } else {
                assert(!g1.arc_life@[i]);
            }
        }
    }

    /// `q` is a path of living arcs from `n` to an accepting node of the last layer.
    spec fn is_alive_suffix(self, n: Node, q: Seq<Arc>) -> bool {
        &&& n.layer + q.len() + 1 == self.layer_count
        &&& forall|k: int| 0 <= k < q.len() ==> (#[trigger] q[k]).start_layer == n.layer + k
        &&& forall|k: int| 0 <= k < q.len() ==> self.arcs@.contains(#[trigger] q[k])
        &&& forall|k: int| 0 <= k < q.len() ==> self.arc_alive(#[trigger] q[k])
        &&& q.len() > 0 ==> q[0].start_state == n.state
        &&& forall|k: int| 0 <= k < q.len() - 1 ==> (#[trigger] q[k]).end_state == q[k + 1].start_state
        &&& self.accepting@.contains(if q.len() == 0 { n.state } else { q.last().end_state })
    }

    /// `q` is a path of living arcs from the starting node to `n`.
    spec fn is_alive_prefix(self, n: Node, q: Seq<Arc>) -> bool {
        &&& q.len() == n.layer
        &&& forall|k: int| 0 <= k < q.len() ==> (#[trigger] q[k]).start_layer == k
        &&& forall|k: int| 0 <= k < q.len() ==> self.arcs@.contains(#[trigger] q[k])
        &&& forall|k: int| 0 <= k < q.len() ==> self.arc_alive(#[trigger] q[k])
        &&& q.len() > 0 ==> q[0].start_state == self.starting
        &&& forall|k: int| 0 <= k < q.len() - 1 ==> (#[trigger] q[k]).end_state == q[k + 1].start_state
        &&& (if q.len() == 0 { n.state == self.starting } else { q.last().end_state == n.state })
    }

    /// From a living node, living arcs lead on to an accepting node of the last layer.
    proof fn alive_suffix(self, n: Node) -> (q: Seq<Arc>)
        requires
            self.structure(),
            self.no_dangling(),
            self.all_supported(),
            self.node_alive(n),
        ensures
            self.is_alive_suffix(n, q),
        decreases self.layer_count - n.layer,
    {
        let j = choose|j: int| 0 <= j < self.nodes@.len() && self.nodes@[j] == n && #[trigger] self.node_life@[j];
        assert(self.supported(n));
        if self.has_alive_out(n) {
            let i = choose|i: int| 0 <= i < self.arcs@.len() && #[trigger] self.arc_life@[i] && self.arcs@[i].start_spec() == n;
            let a = self.arcs@[i];
            assert(a.start_layer + 1 < self.layer_count);
            self.lemma_arc_alive_at(i);
            let rest = self.alive_suffix(a.end_spec());
            let q = seq![a] + rest;
            assert forall|k: int| 0 <= k < q.len() implies (#[trigger] q[k]).start_layer == n.layer + k by {
                if k > 0 {
                    assert(q[k] == rest[k - 1]);
                }
            }
            assert forall|k: int| 0 <= k < q.len() implies self.arcs@.contains(#[trigger] q[k]) && self.arc_alive(q[k]) by {
                if k > 0 {
                    assert(q[k] == rest[k - 1]);
                }
            }
            assert forall|k: int| 0 <= k < q.len() - 1 implies (#[trigger] q[k]).end_state == q[k + 1].start_state by {
                if k > 0 {
                    assert(q[k] == rest[k - 1]);
                    assert(q[k + 1] == rest[k]);
                }
            }
            if rest.len() > 0 {
                assert(q.last() == rest.last());
            }
            q
        } else {
            assert(self.is_last(n));
            Seq::empty()
        }
    }

    /// A living node is reached from the starting node by living arcs.
    proof fn alive_prefix(self, n: Node) -> (q: Seq<Arc>)
        requires
            self.structure(),
            self.no_dangling(),
            self.all_supported(),
            self.node_alive(n),
        ensures
            self.is_alive_prefix(n, q),
        decreases n.layer,
    {
        let j = choose|j: int| 0 <= j < self.nodes@.len() && self.nodes@[j] == n && #[trigger] self.node_life@[j];
        assert(self.supported(n));
        if self.has_alive_in(n) {
            let i = choose|i: int| 0 <= i < self.arcs@.len() && #[trigger] self.arc_life@[i] && self.arcs@[i].end_spec() == n;
            let a = self.arcs@[i];
            assert(a.start_layer + 1 < self.layer_count);
            self.lemma_arc_alive_at(i);
            let rest = self.alive_prefix(a.start_spec());
            let q = rest.push(a);
            assert forall|k: int| 0 <= k < q.len() - 1 implies (#[trigger] q[k]).end_state == q[k + 1].start_state by {
                if k + 1 < rest.len() {
                    assert(q[k] == rest[k]);
                    assert(q[k + 1] == rest[k + 1]);
                } else {
                    assert(q[k] == rest[k]);
                }
            }
            assert forall|k: int| 0 <= k < q.len() implies self.arcs@.contains(#[trigger] q[k]) && self.arc_alive(q[k])
                && q[k].start_layer == k by {
                if k < rest.len() {
                    assert(q[k] == rest[k]);
                }
            }
            q
        } else {
            Seq::empty()
        }
    }

    /// A living prefix, a living arc and a living suffix make a full living path.
    #[verifier::rlimit(30)]
    proof fn lemma_join_paths(self, pre: Seq<Arc>, a: Arc, suf: Seq<Arc>) -> (p: Seq<Arc>)
        requires
            self.is_alive_prefix(a.start_spec(), pre),
            self.is_alive_suffix(a.end_spec(), suf),
            a.start_layer + 1 < self.layer_count,
            self.arcs@.contains(a),
            self.arc_alive(a),
        ensures
            p == pre.push(a) + suf,
            self.is_full_path(p),
            self.path_alive(p),
            a.start_layer < p.len(),
            p[a.start_layer as int] == a,
    {
        let p = pre.push(a) + suf;
        let l = a.start_layer as int;
        assert(p.len() + 1 == self.layer_count);
        assert(p[l] == a);
        assert forall|k: int| 0 <= k < p.len() implies (#[trigger] p[k]).start_layer == k && self.arcs@.contains(p[k])
            && self.arc_alive(p[k]) by {
            if k < l {
                assert(p[k] == pre[k]);
            } else if k > l {
                assert(p[k] == suf[k - l - 1]);
            }
        }
        assert forall|k: int| 0 <= k < p.len() - 1 implies (#[trigger] p[k]).end_state == p[k + 1].start_state by {
            if k + 1 < l {
                assert(p[k] == pre[k]);
                assert(p[k + 1] == pre[k + 1]);
            } else if k + 1 == l {
                assert(p[k] == pre[k]);
            } else if k == l {
                assert(p[k + 1] == suf[0]);
            } else {
                assert(p[k] == suf[k - l - 1]);
                assert(p[k + 1] == suf[k - l]);
            }
        }
        if l > 0 {
            assert(p[0] == pre[0]);
        }
        if suf.len() > 0 {
            assert(p[p.len() - 1] == suf.last());
        }
        assert(self.path_state(p, p.len() as int) == (if suf.len() == 0 { a.end_state } else { suf.last().end_state }));
        p
    }

    /// A living arc lies on a full path of living arcs.
    proof fn alive_path_through(self, i: int) -> (p: Seq<Arc>)
        requires
            self.structure(),
            self.no_dangling(),
            self.all_supported(),
            0 <= i < self.arcs@.len(),
            self.arc_life@[i],
        ensures
            self.is_full_path(p),
            self.path_alive(p),
            self.arcs@[i].start_layer < p.len(),
            p[self.arcs@[i].start_layer as int] == self.arcs@[i],
    {
        let a = self.arcs@[i];
        self.lemma_arc_alive_at(i);
        let pre = self.alive_prefix(a.start_spec());
        let suf = self.alive_suffix(a.end_spec());
        self.lemma_join_paths(pre, a, suf)
    }

    /// A living arc's letter is still in its variable's domain.
    proof fn lemma_alive_in_domain(self, i: int)
        requires
            self.structure(),
            self.alive_iff_supported(),
            0 <= i < self.arcs@.len(),
            self.arc_life@[i],
        ensures
            self.domain@[self.arcs@[i].start_layer as int]@.contains(self.arcs@[i].letter),
    {
        assert(self.supported_arc(self.arcs@[i]));
        let p = choose|p: Seq<Arc>| #[trigger] self.is_full_path(p) && self.path_in_domain(p)
            && self.arcs@[i].start_layer < p.len() && p[self.arcs@[i].start_layer as int] == self.arcs@[i];
        assert(self.domain@[self.arcs@[i].start_layer as int]@.contains(p[self.arcs@[i].start_layer as int].letter));
    }

    // ------------------------------------------------------------- queries

    /// The position of `a` among the arcs.
    fn arc_index(&self, a: Arc) -> (i: usize)
        requires
            self.structure(),
            self.arcs@.contains(a),
        ensures
            i < self.arcs@.len(),
            self.arcs@[i as int] == a,
    {
        let mut i: usize = 0;
        while i < self.arcs.len()
            invariant
                i <= self.arcs@.len(),
                self.arcs@.contains(a),
                forall|k: int| 0 <= k < i ==> self.arcs@[k] != a,
            decreases self.arcs@.len() - i,
        {
            if self.arcs[i] == a {
                return i;
            }
            i = i + 1;
        }
        i
    }

    /// The position of `n` among the nodes, if it is one.
    fn node_index(&self, n: Node) -> (r: Option<usize>)
        requires
            self.structure(),
        ensures
            r matches Some(j) ==> j < self.nodes@.len() && self.nodes@[j as int] == n,
            r is None ==> !self.nodes@.contains(n),
    {
        let mut j: usize = 0;
        while j < self.nodes.len()
            invariant
                j <= self.nodes@.len(),
                forall|k: int| 0 <= k < j ==> self.nodes@[k] != n,
            decreases self.nodes@.len() - j,
        {
            if self.nodes[j] == n {
                return Some(j);
            }
            j = j + 1;
        }
        None
    }

    /// The starting node, in the first layer.
    fn starting_node(&self) -> (n: Node)
        ensures
            n == (Node { layer: 0, state: self.starting }),
    {
        Node { layer: 0, state: self.starting }
    }

    /// Whether the arc `edge` (an arc of the graph) is alive.
    fn is_alive(&self, edge: Arc) -> (b: bool)
        requires
            self.structure(),
            self.has_arc(edge),
        ensures
            b == self.arc_alive(edge),
    {
        let i = self.arc_index(edge);
        proof {
            self.lemma_arc_alive_at(i as int);
        }
        self.arc_life[i]
    }

    /// Whether the letter of `edge` is still in its variable's domain.
    fn is_in_domain(&self, edge: Arc) -> (b: bool)
        requires
            self.structure(),
            edge.start_layer < self.domain@.len(),
        ensures
            b == self.domain@[edge.start_layer as int]@.contains(edge.letter),
    {
        contains_letter(&self.domain[edge.start_layer], edge.letter)
    }

    /// All arcs leaving `node`, dead or alive.
    fn outbound_edges_all(&self, node: Node) -> (r: Vec<Arc>)
        requires
            self.structure(),
        ensures
            r@.no_duplicates(),
            forall|a: Arc| #[trigger] r@.contains(a) <==> (self.arcs@.contains(a) && a.start_spec() == node),
    {
        self.edges_matching(node, false, false)
    }

    /// The living arcs leaving `node`.
    fn outbound_edges(&self, node: Node) -> (r: Vec<Arc>)
        requires
            self.structure(),
        ensures
            r@.no_duplicates(),
            forall|a: Arc| #[trigger] r@.contains(a) <==> (self.arcs@.contains(a) && self.arc_alive(a) && a.start_spec() == node),
    {
        self.edges_matching(node, false, true)
    }

    /// All arcs entering `node`, dead or alive.
    fn inbound_edges_all(&self, node: Node) -> (r: Vec<Arc>)
        requires
            self.structure(),
        ensures
            r@.no_duplicates(),
            forall|a: Arc| #[trigger] r@.contains(a) <==> (self.arcs@.contains(a) && a.end_spec() == node),
    {
        self.edges_matching(node, true, false)
    }

    /// The living arcs entering `node`.
    fn inbound_edges(&self, node: Node) -> (r: Vec<Arc>)
        requires
            self.structure(),
        ensures
            r@.no_duplicates(),
            forall|a: Arc| #[trigger] r@.contains(a) <==> (self.arcs@.contains(a) && self.arc_alive(a) && a.end_spec() == node),
    {
        self.edges_matching(node, true, true)
    }

    /// The letters the `variable_index`-th variable can still take: those of the
    /// living arcs leaving living nodes of its layer.
    pub fn living_values(&self, variable_index: usize) -> (values: Vec<Letter>)
        requires
            self.wf(),
            variable_index < self.layers(),
        ensures
            values@.no_duplicates(),
            forall|v: Letter| #[trigger] values@.contains(v) <==> exists|p: Seq<Arc>|
                #[trigger] self.is_full_path(p) && self.path_in_domain(p) && variable_index < p.len()
                    && p[variable_index as int].letter == v,
    {
        let mut values: Vec<Letter> = Vec::new();
        let mut j: usize = 0;
        while j < self.nodes.len()
            invariant
                self.wf(),
                j <= self.nodes@.len(),
                values@.no_duplicates(),
                forall|v: Letter| #[trigger] values@.contains(v) <==> exists|jj: int, i: int|
                    0 <= jj < j && 0 <= i < self.arcs@.len() && self.nodes@[jj].layer == variable_index
                        && #[trigger] self.node_life@[jj] && #[trigger] self.arc_life@[i]
                        && self.arcs@[i].start_spec() == self.nodes@[jj] && self.arcs@[i].letter == v,
            decreases self.nodes@.len() - j,
        {
            let node = self.nodes[j];
            if node.layer == variable_index && self.node_life[j] {
                let edges = self.outbound_edges(node);
                let mut k: usize = 0;
                while k < edges.len()
                    invariant
                        self.wf(),
                        j < self.nodes@.len(),
                        node == self.nodes@[j as int],
                        node.layer == variable_index,
                        self.node_life@[j as int],
                        k <= edges@.len(),
                        forall|a: Arc| #[trigger] edges@.contains(a) <==> (self.arcs@.contains(a) && self.arc_alive(a) && a.start_spec() == node),
                        values@.no_duplicates(),
                        forall|v: Letter| #[trigger] values@.contains(v) <==> (exists|jj: int, i: int|
                            0 <= jj < j && 0 <= i < self.arcs@.len() && self.nodes@[jj].layer == variable_index
                                && #[trigger] self.node_life@[jj] && #[trigger] self.arc_life@[i]
                                && self.arcs@[i].start_spec() == self.nodes@[jj] && self.arcs@[i].letter == v)
                            || (exists|m: int| 0 <= m < k && (#[trigger] edges@[m]).letter == v),
                    decreases edges@.len() - k,
                {
                    let edge = edges[k];
                    assert(edges@.contains(edge));
                    let ghost before = values@;
                    let alive = self.is_alive(edge);
                    assert(alive);
                    if alive {
                        if !contains_letter(&values, edge.letter) {
                            values.push(edge.letter);
                            assert(values@[values@.len() - 1] == edge.letter);
                        }
                    }
                    proof {
                        assert(values@.contains(edge.letter));
                        assert forall|v: Letter| before.contains(v) implies values@.contains(v) by {
                            let y = choose|y: int| 0 <= y < before.len() && before[y] == v;
                            assert(values@[y] == v);
                        }
                        assert forall|v: Letter| values@.contains(v) && !before.contains(v) implies v == edge.letter by {
                            let y = choose|y: int| 0 <= y < values@.len() && values@[y] == v;
                            assert(y == before.len());
                        }
                        assert forall|v: Letter| #[trigger] values@.contains(v) <==> (exists|jj: int, i: int|
                            0 <= jj < j && 0 <= i < self.arcs@.len() && self.nodes@[jj].layer == variable_index
                                && #[trigger] self.node_life@[jj] && #[trigger] self.arc_life@[i]
                                && self.arcs@[i].start_spec() == self.nodes@[jj] && self.arcs@[i].letter == v)
                            || (exists|m: int| 0 <= m < k + 1 && (#[trigger] edges@[m]).letter == v) by {
                            let old_side = (exists|jj: int, i: int|
                                0 <= jj < j && 0 <= i < self.arcs@.len() && self.nodes@[jj].layer == variable_index
                                    && #[trigger] self.node_life@[jj] && #[trigger] self.arc_life@[i]
                                    && self.arcs@[i].start_spec() == self.nodes@[jj] && self.arcs@[i].letter == v)
                                || (exists|m: int| 0 <= m < k && (#[trigger] edges@[m]).letter == v);
                            assert(before.contains(v) == old_side);
                            if v == edge.letter {
                                assert(edges@[k as int].letter == v);
                            } else {
                                if exists|m: int| 0 <= m < k + 1 && (#[trigger] edges@[m]).letter == v {
                                    let m = choose|m: int| 0 <= m < k + 1 && (#[trigger] edges@[m]).letter == v;
                                    assert(m != k);
                                    assert(exists|m: int| 0 <= m < k && (#[trigger] edges@[m]).letter == v);
                                }
                                assert(values@.contains(v) == before.contains(v));
                            }
                        }
                    }
                    k = k + 1;
                }
                proof {
                    assert forall|v: Letter| #[trigger] values@.contains(v) <==> exists|jj: int, i: int|
                        0 <= jj < j + 1 && 0 <= i < self.arcs@.len() && self.nodes@[jj].layer == variable_index
                            && #[trigger] self.node_life@[jj] && #[trigger] self.arc_life@[i]
                            && self.arcs@[i].start_spec() == self.nodes@[jj] && self.arcs@[i].letter == v by {
                        if exists|m: int| 0 <= m < edges@.len() && (#[trigger] edges@[m]).letter == v {
                            let m = choose|m: int| 0 <= m < edges@.len() && (#[trigger] edges@[m]).letter == v;
                            assert(edges@.contains(edges@[m]));
                            let i = choose|i: int| 0 <= i < self.arcs@.len() && self.arcs@[i] == edges@[m] && #[trigger] self.arc_life@[i];
                            assert(self.arc_life@[i]);
                        }
                        if exists|jj: int, i: int|
                            0 <= jj < j + 1 && 0 <= i < self.arcs@.len() && self.nodes@[jj].layer == variable_index
                                && #[trigger] self.node_life@[jj] && #[trigger] self.arc_life@[i]
                                && self.arcs@[i].start_spec() == self.nodes@[jj] && self.arcs@[i].letter == v {
                            let (jj, i) = choose|jj: int, i: int|
                                0 <= jj < j + 1 && 0 <= i < self.arcs@.len() && self.nodes@[jj].layer == variable_index
                                    && #[trigger] self.node_life@[jj] && #[trigger] self.arc_life@[i]
                                    && self.arcs@[i].start_spec() == self.nodes@[jj] && self.arcs@[i].letter == v;
                            if jj == j {
                                self.lemma_arc_alive_at(i);
                                assert(edges@.contains(self.arcs@[i]));
                                let m = choose|m: int| 0 <= m < edges@.len() && edges@[m] == self.arcs@[i];
                                assert(edges@[m].letter == v);
                            }
                        }
                    }
                }
            } else {
                proof {
                    assert forall|v: Letter| #[trigger] values@.contains(v) <==> exists|jj: int, i: int|
                        0 <= jj < j + 1 && 0 <= i < self.arcs@.len() && self.nodes@[jj].layer == variable_index
                            && #[trigger] self.node_life@[jj] && #[trigger] self.arc_life@[i]
                            && self.arcs@[i].start_spec() == self.nodes@[jj] && self.arcs@[i].letter == v by {
                        if exists|jj: int, i: int|
                            0 <= jj < j + 1 && 0 <= i < self.arcs@.len() && self.nodes@[jj].layer == variable_index
                                && #[trigger] self.node_life@[jj] && #[trigger] self.arc_life@[i]
                                && self.arcs@[i].start_spec() == self.nodes@[jj] && self.arcs@[i].letter == v {
                            let (jj, i) = choose|jj: int, i: int|
                                0 <= jj < j + 1 && 0 <= i < self.arcs@.len() && self.nodes@[jj].layer == variable_index
                                    && #[trigger] self.node_life@[jj] && #[trigger] self.arc_life@[i]
                                    && self.arcs@[i].start_spec() == self.nodes@[jj] && self.arcs@[i].letter == v;
                            assert(jj != j);
                        }
                    }
                }
            }
            j = j + 1;
        }
        proof {
            assert forall|v: Letter| #[trigger] values@.contains(v) <==> exists|p: Seq<Arc>|
                #[trigger] self.is_full_path(p) && self.path_in_domain(p) && variable_index < p.len()
                    && p[variable_index as int].letter == v by {
                if values@.contains(v) {
                    let (jj, i) = choose|jj: int, i: int|
                        0 <= jj < self.nodes@.len() && 0 <= i < self.arcs@.len() && self.nodes@[jj].layer == variable_index
                            && #[trigger] self.node_life@[jj] && #[trigger] self.arc_life@[i]
                            && self.arcs@[i].start_spec() == self.nodes@[jj] && self.arcs@[i].letter == v;
                    assert(self.supported_arc(self.arcs@[i]));
                }
                if exists|p: Seq<Arc>| #[trigger] self.is_full_path(p) && self.path_in_domain(p) && variable_index < p.len()
                    && p[variable_index as int].letter == v {
                    let p = choose|p: Seq<Arc>| #[trigger] self.is_full_path(p) && self.path_in_domain(p) && variable_index < p.len()
                        && p[variable_index as int].letter == v;
                    let a = p[variable_index as int];
                    assert(self.arcs@.contains(a));
                    let i = choose|i: int| 0 <= i < self.arcs@.len() && self.arcs@[i] == a;
                    assert(self.supported_arc(a));
                    assert(self.arc_life@[i]);
                    assert(self.nodes@.contains(a.start_spec()));
                    let jj = choose|jj: int| 0 <= jj < self.nodes@.len() && self.nodes@[jj] == a.start_spec();
                    self.lemma_node_alive_at(jj);
                }
            }
        }
        values
    }

    /// Removes `value` from the domain of the `variable_index`-th variable and
    /// kills every living arc of that variable with that letter, together with
    /// everything left without support.
    pub fn kill_value(&mut self, variable_index: usize, value: Letter)
        requires
            old(self).wf(),
            variable_index + 1 < old(self).layers(),
        ensures
            final(self).wf(),
            final(self).same_shape(*old(self)),
            final(self).layers() == old(self).layers(),
            final(self).node_set() == old(self).node_set(),
            forall|a: Arc| #[trigger] final(self).has_arc(a) == old(self).has_arc(a),
            final(self).alphabet_seq() == old(self).alphabet_seq(),
            forall|p: Seq<Arc>| #[trigger] final(self).is_full_path(p) == old(self).is_full_path(p),
            final(self).domain_of(variable_index as int) == old(self).domain_of(variable_index as int).remove(value),
            forall|j: int| 0 <= j < final(self).layers() - 1 && j != variable_index ==>
                #[trigger] final(self).domain_of(j) == old(self).domain_of(j),
    {
        let ghost g_old = *self;
        let new_domain = remove_letter(&self.domain[variable_index], value);
        self.domain.set(variable_index, new_domain);
        let ghost gc = *self;
        proof {
            assert(self.structure());
        }

        let mut edges_to_kill: Vec<Arc> = Vec::new();
        let mut j: usize = 0;
        while j < self.nodes.len()
            invariant
                *self == gc,
                gc.structure(),
                j <= self.nodes@.len(),
                forall|m: int| 0 <= m < edges_to_kill@.len() ==> self.arcs@.contains(#[trigger] edges_to_kill@[m])
                    && edges_to_kill@[m].start_layer == variable_index && edges_to_kill@[m].letter == value,
                forall|i: int| 0 <= i < self.arcs@.len() && #[trigger] self.arc_life@[i]
                    && self.arcs@[i].start_layer == variable_index && self.arcs@[i].letter == value
                    && (exists|jj: int| 0 <= jj < j && self.nodes@[jj] == self.arcs@[i].start_spec())
                    ==> edges_to_kill@.contains(self.arcs@[i]),
            decreases self.nodes@.len() - j,
        {
            let node = self.nodes[j];
            if node.layer == variable_index {
                let out = self.outbound_edges(node);
                let mut k: usize = 0;
                while k < out.len()
                    invariant
                        *self == gc,
                        gc.structure(),
                        j < self.nodes@.len(),
                        node == self.nodes@[j as int],
                        k <= out@.len(),
                        forall|a: Arc| #[trigger] out@.contains(a) <==> (self.arcs@.contains(a) && self.arc_alive(a) && a.start_spec() == node),
                        node.layer == variable_index,
                        forall|m: int| 0 <= m < edges_to_kill@.len() ==> self.arcs@.contains(#[trigger] edges_to_kill@[m])
                            && edges_to_kill@[m].start_layer == variable_index && edges_to_kill@[m].letter == value,
                        forall|i: int| 0 <= i < self.arcs@.len() && #[trigger] self.arc_life@[i]
                            && self.arcs@[i].start_layer == variable_index && self.arcs@[i].letter == value
                            && (exists|jj: int| 0 <= jj < j && self.nodes@[jj] == self.arcs@[i].start_spec())
                            ==> edges_to_kill@.contains(self.arcs@[i]),
                        forall|m: int| 0 <= m < k && (#[trigger] out@[m]).letter == value ==> edges_to_kill@.contains(out@[m]),
                    decreases out@.len() - k,
                {
                    let edge = out[k];
                    assert(out@.contains(edge));
                    let ghost before = edges_to_kill@;
                    if edge.letter == value {
                        edges_to_kill.push(edge);
                    }
                    proof {
                        assert forall|x: Arc| before.contains(x) implies edges_to_kill@.contains(x) by {
                            let y = choose|y: int| 0 <= y < before.len() && before[y] == x;
                            assert(edges_to_kill@[y] == x);
                        }
                        if edge.letter == value {
                            assert(edges_to_kill@[edges_to_kill@.len() - 1] == edge);
                        }
                    }
                    k = k + 1;
                }
                proof {
                    assert forall|i: int| 0 <= i < self.arcs@.len() && #[trigger] self.arc_life@[i]
                        && self.arcs@[i].start_layer == variable_index && self.arcs@[i].letter == value
                        && (exists|jj: int| 0 <= jj < j + 1 && self.nodes@[jj] == self.arcs@[i].start_spec())
                        implies edges_to_kill@.contains(self.arcs@[i]) by {
                        let jj = choose|jj: int| 0 <= jj < j + 1 && self.nodes@[jj] == self.arcs@[i].start_spec();
                        if jj == j {
                            self.lemma_arc_alive_at(i);
                            assert(out@.contains(self.arcs@[i]));
                            let m = choose|m: int| 0 <= m < out@.len() && out@[m] == self.arcs@[i];
                            assert(edges_to_kill@.contains(out@[m]));
                        } else {
                            assert(exists|jj: int| 0 <= jj < j && self.nodes@[jj] == self.arcs@[i].start_spec());
                        }
                    }
                }
            } else {
                proof {
                    assert forall|i: int| 0 <= i < self.arcs@.len() && #[trigger] self.arc_life@[i]
                        && self.arcs@[i].start_layer == variable_index && self.arcs@[i].letter == value
                        && (exists|jj: int| 0 <= jj < j + 1 && self.nodes@[jj] == self.arcs@[i].start_spec())
                        implies edges_to_kill@.contains(self.arcs@[i]) by {
                        let jj = choose|jj: int| 0 <= jj < j + 1 && self.nodes@[jj] == self.arcs@[i].start_spec();
                        assert(jj != j);
                        assert(exists|jj: int| 0 <= jj < j && self.nodes@[jj] == self.arcs@[i].start_spec());
                    }
                }
            }
            j = j + 1;
        }
        proof {
            assert forall|i: int| 0 <= i < gc.arcs@.len() && #[trigger] gc.arc_life@[i]
                && gc.arcs@[i].start_layer == variable_index && gc.arcs@[i].letter == value
                implies edges_to_kill@.contains(gc.arcs@[i]) by {
                assert(gc.nodes@.contains(gc.arcs@[i].start_spec()));
                let jj = choose|jj: int| 0 <= jj < gc.nodes@.len() && gc.nodes@[jj] == gc.arcs@[i].start_spec();
                assert(exists|jj: int| 0 <= jj < self.nodes@.len() && self.nodes@[jj] == self.arcs@[i].start_spec());
            }
            assert(self.life_shrinks(gc));
            assert(self.no_new_unsupported(gc));
            assert(self.dead_are_isolated(gc, None));
        }

        let mut k: usize = 0;
        while k < edges_to_kill.len()
            invariant
                self.structure(),
                self.same_shape(gc),
                self.domain@ == gc.domain@,
                gc.structure(),
                self.life_shrinks(gc),
                self.no_new_unsupported(gc),
                self.dead_are_isolated(gc, None),
                k <= edges_to_kill@.len(),
                forall|m: int| 0 <= m < edges_to_kill@.len() ==> gc.arcs@.contains(#[trigger] edges_to_kill@[m])
                    && edges_to_kill@[m].start_layer == variable_index && edges_to_kill@[m].letter == value,
                forall|m: int| 0 <= m < k ==> !self.arc_alive(#[trigger] edges_to_kill@[m]),
                forall|p: Seq<Arc>| #[trigger] gc.is_full_path(p) && gc.path_alive(p)
                    && p[variable_index as int].letter != value ==> self.path_alive(p),
            decreases edges_to_kill@.len() - k,
        {
            let ghost sk = *self;
            let edge = edges_to_kill[k];
            self.kill_edge(edge, Direction::Both);
            proof {
                Self::lemma_steps_compose(gc, sk, *self, None);
                assert forall|m: int| 0 <= m < k + 1 implies !self.arc_alive(#[trigger] edges_to_kill@[m]) by {
                    if m < k {
                        assert(!sk.arc_alive(edges_to_kill@[m]));
                        let i = choose|i: int| 0 <= i < gc.arcs@.len() && gc.arcs@[i] == edges_to_kill@[m];
                        sk.lemma_arc_alive_at(i);
                        self.lemma_arc_alive_at(i);
                    }
                }
                assert forall|p: Seq<Arc>| #[trigger] gc.is_full_path(p) && gc.path_alive(p)
                    && p[variable_index as int].letter != value implies self.path_alive(p) by {
                    assert(sk.is_full_path(p));
                    assert(sk.path_alive(p));
                    if p.contains(edge) {
                        let x = choose|x: int| 0 <= x < p.len() && p[x] == edge;
                    }
                }
            }
            k = k + 1;
        }
        proof {
            self.lemma_kill_value_wf(g_old, gc, variable_index as int, value, edges_to_kill@);
            assert forall|p: Seq<Arc>| #[trigger] self.is_full_path(p) == g_old.is_full_path(p) by {}
            assert forall|jd: int| 0 <= jd < self.layers() - 1 && jd != variable_index implies
                #[trigger] self.domain_of(jd) == g_old.domain_of(jd) by {}
        }
    }

    /// `self` (reached from `gc` by killing arcs) is well formed again.
    proof fn lemma_kill_value_wf(self, g_old: LayeredGraph, gc: LayeredGraph, idx: int, value: Letter, killed: Seq<Arc>)
        requires
            g_old.wf(),
            0 <= idx < g_old.domain@.len(),
            gc.structure(),
            gc.same_shape(g_old),
            gc.arc_life@ == g_old.arc_life@,
            gc.node_life@ == g_old.node_life@,
            gc.domain@ == g_old.domain@.update(idx, gc.domain@[idx]),
            gc.domain@[idx]@.to_set() == g_old.domain@[idx]@.to_set().remove(value),
            self.structure(),
            self.same_shape(gc),
            self.domain@ == gc.domain@,
            self.life_shrinks(gc),
            self.no_new_unsupported(gc),
            self.dead_are_isolated(gc, None),
            forall|m: int| 0 <= m < killed.len() ==> !self.arc_alive(#[trigger] killed[m]),
            forall|i: int| 0 <= i < gc.arcs@.len() && #[trigger] gc.arc_life@[i]
                && gc.arcs@[i].start_layer == idx && gc.arcs@[i].letter == value
                ==> killed.contains(gc.arcs@[i]),
            forall|p: Seq<Arc>| #[trigger] gc.is_full_path(p) && gc.path_alive(p)
                && p[idx].letter != value ==> self.path_alive(p),
        ensures
            self.wf(),
    {
        self.lemma_kill_value_no_dangling(g_old, gc, idx, value, killed);
        self.lemma_kill_value_supported(g_old, gc, idx, value, killed);
        assert forall|i: int| 0 <= i < self.arcs@.len() implies (#[trigger] self.arc_life@[i] <==> self.supported_arc(self.arcs@[i])) by {
            if self.arc_life@[i] {
                self.lemma_kill_value_alive_supported(g_old, gc, idx, value, killed, i);
            }
            if self.supported_arc(self.arcs@[i]) {
                self.lemma_kill_value_supported_alive(g_old, gc, idx, value, killed, i);
            }
        }
    }

    proof fn lemma_kill_value_no_dangling(self, g_old: LayeredGraph, gc: LayeredGraph, idx: int, value: Letter, killed: Seq<Arc>)
        requires
            g_old.wf(),
            0 <= idx < g_old.domain@.len(),
            gc.structure(),
            gc.same_shape(g_old),
            gc.arc_life@ == g_old.arc_life@,
            gc.node_life@ == g_old.node_life@,
            gc.domain@ == g_old.domain@.update(idx, gc.domain@[idx]),
            gc.domain@[idx]@.to_set() == g_old.domain@[idx]@.to_set().remove(value),
            self.structure(),
            self.same_shape(gc),
            self.domain@ == gc.domain@,
            self.life_shrinks(gc),
            self.no_new_unsupported(gc),
            self.dead_are_isolated(gc, None),
            forall|m: int| 0 <= m < killed.len() ==> !self.arc_alive(#[trigger] killed[m]),
            forall|i: int| 0 <= i < gc.arcs@.len() && #[trigger] gc.arc_life@[i]
                && gc.arcs@[i].start_layer == idx && gc.arcs@[i].letter == value
                ==> killed.contains(gc.arcs@[i]),
            forall|p: Seq<Arc>| #[trigger] gc.is_full_path(p) && gc.path_alive(p)
                && p[idx].letter != value ==> self.path_alive(p),
        ensures
            self.no_dangling(),
    {
        assert forall|i: int| 0 <= i < self.arcs@.len() && #[trigger] self.arc_life@[i] implies
            self.node_alive(self.arcs@[i].start_spec()) && self.node_alive(self.arcs@[i].end_spec()) by {
            assert(gc.arc_life@[i]);
            assert(g_old.arc_life@[i]);
            assert(g_old.node_alive(self.arcs@[i].start_spec()));
            assert(g_old.node_alive(self.arcs@[i].end_spec()));
            let js = choose|js: int| 0 <= js < g_old.nodes@.len() && g_old.nodes@[js] == self.arcs@[i].start_spec()
                && #[trigger] g_old.node_life@[js];
            let je = choose|je: int| 0 <= je < g_old.nodes@.len() && g_old.nodes@[je] == self.arcs@[i].end_spec()
                && #[trigger] g_old.node_life@[je];
            if !self.node_life@[js] {
                assert(!self.arc_life@[i]);
            }
            if !self.node_life@[je] {
                assert(!self.arc_life@[i]);
            }
        }
    }

    proof fn lemma_kill_value_supported(self, g_old: LayeredGraph, gc: LayeredGraph, idx: int, value: Letter, killed: Seq<Arc>)
        requires
            g_old.wf(),
            0 <= idx < g_old.domain@.len(),
            gc.structure(),
            gc.same_shape(g_old),
            gc.arc_life@ == g_old.arc_life@,
            gc.node_life@ == g_old.node_life@,
            gc.domain@ == g_old.domain@.update(idx, gc.domain@[idx]),
            gc.domain@[idx]@.to_set() == g_old.domain@[idx]@.to_set().remove(value),
            self.structure(),
            self.same_shape(gc),
            self.domain@ == gc.domain@,
            self.life_shrinks(gc),
            self.no_new_unsupported(gc),
            self.dead_are_isolated(gc, None),
            forall|m: int| 0 <= m < killed.len() ==> !self.arc_alive(#[trigger] killed[m]),
            forall|i: int| 0 <= i < gc.arcs@.len() && #[trigger] gc.arc_life@[i]
                && gc.arcs@[i].start_layer == idx && gc.arcs@[i].letter == value
                ==> killed.contains(gc.arcs@[i]),
            forall|p: Seq<Arc>| #[trigger] gc.is_full_path(p) && gc.path_alive(p)
                && p[idx].letter != value ==> self.path_alive(p),
        ensures
            self.all_supported(),
    {
        assert forall|j: int| 0 <= j < self.nodes@.len() && #[trigger] self.node_life@[j] implies self.supported(self.nodes@[j]) by {
            if !self.supported(self.nodes@[j]) {
                assert(gc.node_life@[j] && !gc.supported(gc.nodes@[j]));
                assert(g_old.node_life@[j]);
                assert(g_old.has_alive_in(g_old.nodes@[j]) == gc.has_alive_in(g_old.nodes@[j]));
                assert(g_old.has_alive_out(g_old.nodes@[j]) == gc.has_alive_out(g_old.nodes@[j]));
            }
        }
    }

    proof fn lemma_kill_value_alive_supported(self, g_old: LayeredGraph, gc: LayeredGraph, idx: int, value: Letter,
        killed: Seq<Arc>, i: int)
        requires
            g_old.wf(),
            0 <= idx < g_old.domain@.len(),
            gc.structure(),
            gc.same_shape(g_old),
            gc.arc_life@ == g_old.arc_life@,
            gc.node_life@ == g_old.node_life@,
            gc.domain@ == g_old.domain@.update(idx, gc.domain@[idx]),
            gc.domain@[idx]@.to_set() == g_old.domain@[idx]@.to_set().remove(value),
            self.structure(),
            self.same_shape(gc),
            self.domain@ == gc.domain@,
            self.life_shrinks(gc),
            self.no_new_unsupported(gc),
            self.dead_are_isolated(gc, None),
            forall|m: int| 0 <= m < killed.len() ==> !self.arc_alive(#[trigger] killed[m]),
            forall|i: int| 0 <= i < gc.arcs@.len() && #[trigger] gc.arc_life@[i]
                && gc.arcs@[i].start_layer == idx && gc.arcs@[i].letter == value
                ==> killed.contains(gc.arcs@[i]),
            forall|p: Seq<Arc>| #[trigger] gc.is_full_path(p) && gc.path_alive(p)
                && p[idx].letter != value ==> self.path_alive(p),
            0 <= i < self.arcs@.len(),
            self.arc_life@[i],
        ensures
            self.supported_arc(self.arcs@[i]),
    {
        self.lemma_kill_value_no_dangling(g_old, gc, idx, value, killed);
        self.lemma_kill_value_supported(g_old, gc, idx, value, killed);
        let p = self.alive_path_through(i);
        assert forall|j: int| 0 <= j < p.len() implies #[trigger] self.domain@[j]@.contains(p[j].letter) by {
            assert(self.arc_alive(p[j]));
            let k = choose|k: int| 0 <= k < self.arcs@.len() && self.arcs@[k] == p[j] && #[trigger] self.arc_life@[k];
            assert(g_old.arc_life@[k]);
            g_old.lemma_alive_in_domain(k);
            if j == idx {
                assert(gc.arc_life@[k]);
                if p[j].letter == value {
                    assert(killed.contains(gc.arcs@[k]));
                    let m = choose|m: int| 0 <= m < killed.len() && killed[m] == gc.arcs@[k];
                    assert(!self.arc_alive(killed[m]));
                }
                assert(g_old.domain@[j]@.to_set().contains(p[j].letter));
                assert(self.domain@[j]@.to_set().contains(p[j].letter));
            }
        }
        assert(self.path_in_domain(p));
    }

    proof fn lemma_kill_value_supported_alive(self, g_old: LayeredGraph, gc: LayeredGraph, idx: int, value: Letter,
        killed: Seq<Arc>, i: int)
        requires
            g_old.wf(),
            0 <= idx < g_old.domain@.len(),
            gc.structure(),
            gc.same_shape(g_old),
            gc.arc_life@ == g_old.arc_life@,
            gc.node_life@ == g_old.node_life@,
            gc.domain@ == g_old.domain@.update(idx, gc.domain@[idx]),
            gc.domain@[idx]@.to_set() == g_old.domain@[idx]@.to_set().remove(value),
            self.structure(),
            self.same_shape(gc),
            self.domain@ == gc.domain@,
            self.life_shrinks(gc),
            self.no_new_unsupported(gc),
            self.dead_are_isolated(gc, None),
            forall|m: int| 0 <= m < killed.len() ==> !self.arc_alive(#[trigger] killed[m]),
            forall|i: int| 0 <= i < gc.arcs@.len() && #[trigger] gc.arc_life@[i]
                && gc.arcs@[i].start_layer == idx && gc.arcs@[i].letter == value
                ==> killed.contains(gc.arcs@[i]),
            forall|p: Seq<Arc>| #[trigger] gc.is_full_path(p) && gc.path_alive(p)
                && p[idx].letter != value ==> self.path_alive(p),
            0 <= i < self.arcs@.len(),
            self.supported_arc(self.arcs@[i]),
        ensures
            self.arc_life@[i],
    {
        let p = choose|p: Seq<Arc>| #[trigger] self.is_full_path(p) && self.path_in_domain(p)
            && self.arcs@[i].start_layer < p.len() && p[self.arcs@[i].start_layer as int] == self.arcs@[i];
        assert(g_old.is_full_path(p));
        assert forall|j: int| 0 <= j < p.len() implies #[trigger] g_old.domain@[j]@.contains(p[j].letter) by {
            assert(self.domain@[j]@.contains(p[j].letter));
            if j == idx {
                assert(self.domain@[j]@.to_set().contains(p[j].letter));
            }
        }
        assert(g_old.path_in_domain(p));
        assert forall|j: int| 0 <= j < p.len() implies g_old.arc_alive(#[trigger] p[j]) by {
            assert(g_old.supported_arc(p[j]));
            assert(g_old.arcs@.contains(p[j]));
            let k = choose|k: int| 0 <= k < g_old.arcs@.len() && g_old.arcs@[k] == p[j];
            assert(g_old.arc_life@[k]);
        }
        assert(gc.path_alive(p)) by {
            assert forall|j: int| 0 <= j < p.len() implies gc.arc_alive(#[trigger] p[j]) by {
                assert(g_old.arc_alive(p[j]));
            }
        }
        assert(p[idx].letter != value) by {
            assert(self.domain@[idx]@.contains(p[idx].letter));
            assert(self.domain@[idx]@.to_set().contains(p[idx].letter));
        }
        assert(gc.is_full_path(p));
        assert(self.path_alive(p));
        assert(self.arc_alive(p[self.arcs@[i].start_layer as int]));
        self.lemma_arc_alive_at(i);
    }

    /// Whether some word of the automaton fits within the current domains
    /// (there is a living value for the first variable).
    pub fn is_consistent(&self) -> (b: bool)
        requires
            self.wf(),
        ensures
            b == (self.layers() > 1 && self.has_solution()),
    {
        let values = self.living_values(0);
        proof {
            if self.layers() > 1 && self.has_solution() {
                let p = choose|p: Seq<Arc>| #[trigger] self.is_full_path(p) && self.path_in_domain(p);
                assert(values@.contains(p[0].letter));
            }
            if values@.len() > 0 {
                assert(values@.contains(values@[0]));
            }
        }
        values.len() != 0
    }

    /// The number of nodes of the graph.
    pub fn count_nodes(&self) -> (total: usize)
        requires
            self.wf(),
        ensures
            total == self.node_set().len(),
    {
        let mut total: usize = 0;
        let mut j: usize = 0;
        while j < self.nodes.len()
            invariant
                j <= self.nodes@.len(),
                total == j,
            decreases self.nodes@.len() - j,
        {
            total = total + 1;
            j = j + 1;
        }
        proof {
            self.nodes@.unique_seq_to_set();
        }
        total
    }

    /// The letters of the alphabet, in order.
    pub closed spec fn alphabet_seq(self) -> Seq<Letter> {
        self.alphabet@
    }

    /// The position of `letter` in the alphabet: in an increasing alphabet, the
    /// number of smaller letters.
    pub fn letter_index(&self, letter: Letter) -> (i: usize)
        requires
            self.alphabet_seq().contains(letter),
        ensures
            i < self.alphabet_seq().len(),
            self.alphabet_seq()[i as int] == letter,
            forall|k: int| 0 <= k < i ==> self.alphabet_seq()[k] != letter,
            increasing(self.alphabet_seq()) ==> forall|k: int| 0 <= k < self.alphabet_seq().len() ==>
                (k < i <==> #[trigger] self.alphabet_seq()[k] < letter),
    {
        let mut i: usize = 0;
        while i < self.alphabet.len()
            invariant
                i <= self.alphabet@.len(),
                self.alphabet@.contains(letter),
                forall|k: int| 0 <= k < i ==> self.alphabet@[k] != letter,
            decreases self.alphabet@.len() - i,
        {
            if self.alphabet[i] == letter {
                return i;
            }
            i = i + 1;
        }
        i
    }

    // -------------------------------------------------------- construction

    /// Every node and arc is alive.
    spec fn all_alive(self) -> bool {
        &&& forall|i: int| 0 <= i < self.arc_life@.len() ==> #[trigger] self.arc_life@[i]
        &&& forall|j: int| 0 <= j < self.node_life@.len() ==> #[trigger] self.node_life@[j]
    }

    /// Everything but the nodes and arcs is the same in `self` and `other`.
    spec fn same_frame(self, other: LayeredGraph) -> bool {
        &&& self.alphabet@ == other.alphabet@
        &&& self.layer_count == other.layer_count
        &&& self.accepting@ == other.accepting@
        &&& self.starting == other.starting
        &&& self.domain@ == other.domain@
        &&& self.state_count == other.state_count
    }

    /// Every arc and node of `self` lives as it did in `other`.
    spec fn lives_kept(self, other: LayeredGraph) -> bool {
        &&& forall|a: Arc| #[trigger] self.arcs@.contains(a) ==> (self.arc_alive(a) == other.arc_alive(a))
        &&& forall|n: Node| #[trigger] self.nodes@.contains(n) ==> (self.node_alive(n) == other.node_alive(n))
    }

    /// `q` is a path of arcs of the graph from `n` to an accepting node of the last layer.
    spec fn graph_suffix(self, n: Node, q: Seq<Arc>) -> bool {
        &&& n.layer + q.len() + 1 == self.layer_count
        &&& forall|k: int| 0 <= k < q.len() ==> (#[trigger] q[k]).start_layer == n.layer + k
        &&& forall|k: int| 0 <= k < q.len() ==> self.arcs@.contains(#[trigger] q[k])
        &&& q.len() > 0 ==> q[0].start_state == n.state
        &&& forall|k: int| 0 <= k < q.len() - 1 ==> (#[trigger] q[k]).end_state == q[k + 1].start_state
        &&& self.accepting@.contains(if q.len() == 0 { n.state } else { q.last().end_state })
    }

    /// From `n` the graph's arcs lead to an accepting node of the last layer.
    spec fn graph_co_reaches(self, n: Node) -> bool {
        exists|q: Seq<Arc>| #[trigger] self.graph_suffix(n, q)
    }

    /// In the last layer, a node leads to acceptance iff its state accepts.
    proof fn lemma_co_reaches_last(self, n: Node)
        requires
            n.layer + 1 == self.layer_count,
        ensures
            self.graph_co_reaches(n) <==> self.accepting@.contains(n.state),
    {
        if self.accepting@.contains(n.state) {
            assert(self.graph_suffix(n, Seq::<Arc>::empty()));
        }
    }

    /// Before the last layer, a node leads to acceptance iff one of its arcs leads to a node that does.
    proof fn lemma_co_reaches_step(self, n: Node)
        requires
            self.structure(),
            n.layer + 1 < self.layer_count,
        ensures
            self.graph_co_reaches(n) <==> exists|i: int| 0 <= i < self.arcs@.len()
                && (#[trigger] self.arcs@[i]).start_spec() == n && self.graph_co_reaches(self.arcs@[i].end_spec()),
    {
        if self.graph_co_reaches(n) {
            let q = choose|q: Seq<Arc>| #[trigger] self.graph_suffix(n, q);
            assert(self.arcs@.contains(q[0]));
            let i = choose|i: int| 0 <= i < self.arcs@.len() && self.arcs@[i] == q[0];
            let r = q.drop_first();
            let e = self.arcs@[i].end_spec();
            assert forall|k: int| 0 <= k < r.len() implies (#[trigger] r[k]).start_layer == e.layer + k
                && self.arcs@.contains(r[k]) by {
                assert(r[k] == q[k + 1]);
            }
            assert forall|k: int| 0 <= k < r.len() - 1 implies (#[trigger] r[k]).end_state == r[k + 1].start_state by {
                assert(r[k] == q[k + 1]);
                assert(r[k + 1] == q[k + 2]);
            }
            if r.len() > 0 {
                assert(r[0] == q[1]);
                assert(r.last() == q.last());
            }
            assert(self.graph_suffix(e, r));
        }
        if exists|i: int| 0 <= i < self.arcs@.len() && (#[trigger] self.arcs@[i]).start_spec() == n
            && self.graph_co_reaches(self.arcs@[i].end_spec()) {
            let i = choose|i: int| 0 <= i < self.arcs@.len() && (#[trigger] self.arcs@[i]).start_spec() == n
                && self.graph_co_reaches(self.arcs@[i].end_spec());
            let a = self.arcs@[i];
            let e = a.end_spec();
            let r = choose|r: Seq<Arc>| #[trigger] self.graph_suffix(e, r);
            let q = seq![a] + r;
            assert forall|k: int| 0 <= k < q.len() implies (#[trigger] q[k]).start_layer == n.layer + k
                && self.arcs@.contains(q[k]) by {
                if k > 0 {
                    assert(q[k] == r[k - 1]);
                }
            }
            assert forall|k: int| 0 <= k < q.len() - 1 implies (#[trigger] q[k]).end_state == q[k + 1].start_state by {
                assert(q[k + 1] == r[k]);
                if k > 0 {
                    assert(q[k] == r[k - 1]);
                }
            }
            if r.len() > 0 {
                assert(q.last() == r.last());
            }
            assert(self.graph_suffix(n, q));
        }
    }

    /// For each node, whether the graph's arcs lead from it to an accepting node of the last layer.
    fn mark_co_reaching(&self) -> (marked: Vec<bool>)
        requires
            self.structure(),
        ensures
            marked@.len() == self.nodes@.len(),
            forall|j: int| 0 <= j < self.nodes@.len() ==> (#[trigger] marked@[j] <==> self.graph_co_reaches(self.nodes@[j])),
    {
        let last = self.layer_count - 1;
        let mut marked: Vec<bool> = Vec::new();
        let mut j: usize = 0;
        while j < self.nodes.len()
            invariant
                self.structure(),
                last + 1 == self.layer_count,
                j <= self.nodes@.len(),
                marked@.len() == j,
                forall|k: int| 0 <= k < j ==> (#[trigger] marked@[k] <==> (self.nodes@[k].layer >= last
                    && self.graph_co_reaches(self.nodes@[k]))),
            decreases self.nodes@.len() - j,
        {
            let n = self.nodes[j];
            proof {
                if n.layer == last {
                    self.lemma_co_reaches_last(n);
                }
            }
            marked.push(n.layer == last && contains_usize(&self.accepting, n.state));
            j = j + 1;
        }
        let mut l: usize = last;
        while l > 0
            invariant
                self.structure(),
                l <= last,
                last + 1 == self.layer_count,
                marked@.len() == self.nodes@.len(),
                forall|k: int| 0 <= k < self.nodes@.len() ==> (#[trigger] marked@[k] <==> (self.nodes@[k].layer >= l
                    && self.graph_co_reaches(self.nodes@[k]))),
            decreases l,
        {
            let lp = l - 1;
            let mut i: usize = 0;
            while i < self.arcs.len()
                invariant
                    self.structure(),
                    lp + 1 == l,
                    l <= last,
                    last + 1 == self.layer_count,
                    i <= self.arcs@.len(),
                    marked@.len() == self.nodes@.len(),
                    forall|k: int| 0 <= k < self.nodes@.len() ==> (#[trigger] marked@[k] <==> (
                        (self.nodes@[k].layer >= l && self.graph_co_reaches(self.nodes@[k]))
                        || (self.nodes@[k].layer == lp && exists|m: int| 0 <= m < i
                            && (#[trigger] self.arcs@[m]).start_spec() == self.nodes@[k]
                            && self.graph_co_reaches(self.arcs@[m].end_spec())))),
                decreases self.arcs@.len() - i,
            {
                let a = self.arcs[i];
                let ghost before = marked@;
                if a.start_layer == lp {
                    assert(self.nodes@.contains(a.end_spec()));
                    assert(self.nodes@.contains(a.start_spec()));
                    let end_node = a.end();
                    let start_node = a.start();
                    match self.node_index(end_node) {
                        Some(je) => {
                            if marked[je] {
                                match self.node_index(start_node) {
                                    Some(js) => {
                                        marked.set(js, true);
                                    },
                                    None => {},
                                }
                            }
                        },
                        None => {},
                    }
                }
                proof {
                    assert forall|k: int| 0 <= k < self.nodes@.len() implies (#[trigger] marked@[k] <==> (
                        (self.nodes@[k].layer >= l && self.graph_co_reaches(self.nodes@[k]))
                        || (self.nodes@[k].layer == lp && exists|m: int| 0 <= m < i + 1
                            && (#[trigger] self.arcs@[m]).start_spec() == self.nodes@[k]
                            && self.graph_co_reaches(self.arcs@[m].end_spec())))) by {
                        let old_side = (self.nodes@[k].layer >= l && self.graph_co_reaches(self.nodes@[k]))
                            || (self.nodes@[k].layer == lp && exists|m: int| 0 <= m < i
                                && (#[trigger] self.arcs@[m]).start_spec() == self.nodes@[k]
                                && self.graph_co_reaches(self.arcs@[m].end_spec()));
                        assert(before[k] == old_side);
                        if a.start_layer == lp {
                            let je = choose|je: int| 0 <= je < self.nodes@.len() && self.nodes@[je] == a.end_spec();
                            assert(before[je] == self.graph_co_reaches(a.end_spec()));
                        }
                        if self.nodes@[k].layer == lp && exists|m: int| 0 <= m < i + 1
                            && (#[trigger] self.arcs@[m]).start_spec() == self.nodes@[k]
                            && self.graph_co_reaches(self.arcs@[m].end_spec()) {
                            let m = choose|m: int| 0 <= m < i + 1
                                && (#[trigger] self.arcs@[m]).start_spec() == self.nodes@[k]
                                && self.graph_co_reaches(self.arcs@[m].end_spec());
                            if m < i {
                                assert(old_side);
                            }
                        }
                    }
                }
                i = i + 1;
            }
            proof {
                assert forall|k: int| 0 <= k < self.nodes@.len() implies (#[trigger] marked@[k] <==> (self.nodes@[k].layer >= lp
                    && self.graph_co_reaches(self.nodes@[k]))) by {
                    if self.nodes@[k].layer == lp {
                        self.lemma_co_reaches_step(self.nodes@[k]);
                    }
                }
            }
            l = lp;
        }
        marked
    }

    /// Removes `arc` from the graph.
    fn delete_edge(&mut self, arc: Arc)
        requires
            old(self).structure(),
        ensures
            final(self).structure(),
            old(self).all_alive() ==> final(self).all_alive(),
            final(self).lives_kept(*old(self)),
            final(self).same_frame(*old(self)),
            final(self).nodes@ == old(self).nodes@,
            final(self).node_life@ == old(self).node_life@,
            forall|a: Arc| #[trigger] final(self).arcs@.contains(a) <==> (old(self).arcs@.contains(a) && a != arc),
    {
        let mut i: usize = 0;
        while i < self.arcs.len()
            invariant
                *self == *old(self),
                self.structure(),
                i <= self.arcs@.len(),
                forall|k: int| 0 <= k < i ==> self.arcs@[k] != arc,
            decreases self.arcs@.len() - i,
        {
            if self.arcs[i] == arc {
                let ghost arcs0 = self.arcs@;
                let ghost life0 = self.arc_life@;
                proof {
                    lemma_seq_remove(arcs0, i as int);
                    arcs0.remove_ensures(i as int);
                    life0.remove_ensures(i as int);
                }
                self.arcs.remove(i);
                self.arc_life.remove(i);
                proof {
                    assert forall|k: int| 0 <= k < self.arcs@.len() implies self.nodes@.contains((#[trigger] self.arcs@[k]).start_spec())
                        && self.nodes@.contains(self.arcs@[k].end_spec()) && self.arcs@[k].start_layer + 1 < self.layer_count by {
                        if k < i {
                            assert(self.arcs@[k] == arcs0[k]);
                        } else {
                            assert(self.arcs@[k] == arcs0[k + 1]);
                        }
                    }
                    if old(self).all_alive() {
                        assert forall|k: int| 0 <= k < self.arc_life@.len() implies #[trigger] self.arc_life@[k] by {
                            if k < i {
                                assert(self.arc_life@[k] == life0[k]);
                            } else {
                                assert(self.arc_life@[k] == life0[k + 1]);
                            }
                        }
                    }
                    assert(self.arcs@ == arcs0.remove(i as int));
                    assert(self.arc_life@ == life0.remove(i as int));
                    assert forall|a: Arc| #[trigger] self.arcs@.contains(a) implies (self.arc_alive(a) == old(self).arc_alive(a)) by {
                        lemma_remove_keeps_flag(arcs0, life0, i as int, a);
                        assert(self.arc_alive(a) == (exists|k: int| 0 <= k < arcs0.remove(i as int).len()
                            && arcs0.remove(i as int)[k] == a && #[trigger] life0.remove(i as int)[k]));
                        assert(old(self).arc_alive(a) == (exists|k: int| 0 <= k < arcs0.len() && arcs0[k] == a && #[trigger] life0[k]));
                    }
                }
                return;
            }
            i = i + 1;
        }
    }

    /// Removes `node` and every arc touching it from the graph.
    fn delete_node(&mut self, node: Node)
        requires
            old(self).structure(),
        ensures
            final(self).structure(),
            old(self).all_alive() ==> final(self).all_alive(),
            final(self).lives_kept(*old(self)),
            final(self).same_frame(*old(self)),
            forall|n: Node| #[trigger] final(self).nodes@.contains(n) <==> (old(self).nodes@.contains(n) && n != node),
            forall|a: Arc| #[trigger] final(self).arcs@.contains(a) <==> (old(self).arcs@.contains(a)
                && a.start_spec() != node && a.end_spec() != node),
    {
        let ghost g0 = *self;
        let outbound_arcs = self.outbound_edges_all(node);
        let mut k: usize = 0;
        while k < outbound_arcs.len()
            invariant
                self.structure(),
                g0.all_alive() ==> self.all_alive(),
                self.lives_kept(g0),
                self.same_frame(g0),
                self.nodes@ == g0.nodes@,
                self.node_life@ == g0.node_life@,
                k <= outbound_arcs@.len(),
                forall|a: Arc| #[trigger] outbound_arcs@.contains(a) <==> (g0.arcs@.contains(a) && a.start_spec() == node),
                forall|a: Arc| #[trigger] self.arcs@.contains(a) <==> (g0.arcs@.contains(a)
                    && !outbound_arcs@.take(k as int).contains(a)),
            decreases outbound_arcs@.len() - k,
        {
            let e = outbound_arcs[k];
            let ghost pre = outbound_arcs@.take(k as int);
            assert(outbound_arcs@.take(k + 1) =~= pre.push(e));
            self.delete_edge(e);
            proof {
                assert forall|a: Arc| #[trigger] self.arcs@.contains(a) <==> (g0.arcs@.contains(a)
                    && !outbound_arcs@.take(k + 1).contains(a)) by {
                    if pre.push(e).contains(a) && a != e {
                        let m = choose|m: int| 0 <= m < pre.push(e).len() && pre.push(e)[m] == a;
                        assert(pre[m] == a);
                    }
                    if pre.contains(a) {
                        let m = choose|m: int| 0 <= m < pre.len() && pre[m] == a;
                        assert(pre.push(e)[m] == a);
                    }
                    assert(pre.push(e)[pre.len() as int] == e);
                }
            }
            k = k + 1;
        }
        assert(outbound_arcs@.take(outbound_arcs@.len() as int) =~= outbound_arcs@);
        let ghost g1 = *self;
        let inbound_arcs = self.inbound_edges_all(node);
        let mut k: usize = 0;
        while k < inbound_arcs.len()
            invariant
                self.structure(),
                g0.all_alive() ==> self.all_alive(),
                self.lives_kept(g0),
                self.same_frame(g0),
                self.nodes@ == g0.nodes@,
                self.node_life@ == g0.node_life@,
                k <= inbound_arcs@.len(),
                forall|a: Arc| #[trigger] inbound_arcs@.contains(a) <==> (g1.arcs@.contains(a) && a.end_spec() == node),
                forall|a: Arc| #[trigger] g1.arcs@.contains(a) <==> (g0.arcs@.contains(a) && a.start_spec() != node),
                forall|a: Arc| #[trigger] self.arcs@.contains(a) <==> (g1.arcs@.contains(a)
                    && !inbound_arcs@.take(k as int).contains(a)),
            decreases inbound_arcs@.len() - k,
        {
            let e = inbound_arcs[k];
            let ghost pre = inbound_arcs@.take(k as int);
            assert(inbound_arcs@.take(k + 1) =~= pre.push(e));
            self.delete_edge(e);
            proof {
                assert forall|a: Arc| #[trigger] self.arcs@.contains(a) <==> (g1.arcs@.contains(a)
                    && !inbound_arcs@.take(k + 1).contains(a)) by {
                    if pre.push(e).contains(a) && a != e {
                        let m = choose|m: int| 0 <= m < pre.push(e).len() && pre.push(e)[m] == a;
                        assert(pre[m] == a);
                    }
                    if pre.contains(a) {
                        let m = choose|m: int| 0 <= m < pre.len() && pre[m] == a;
                        assert(pre.push(e)[m] == a);
                    }
                    assert(pre.push(e)[pre.len() as int] == e);
                }
            }
            k = k + 1;
        }
        assert(inbound_arcs@.take(inbound_arcs@.len() as int) =~= inbound_arcs@);
        proof {
            assert forall|a: Arc| #[trigger] self.arcs@.contains(a) <==> (g0.arcs@.contains(a)
                && a.start_spec() != node && a.end_spec() != node) by {
                if g0.arcs@.contains(a) && a.start_spec() != node && a.end_spec() != node {
                    assert(g1.arcs@.contains(a));
                }
            }
        }
        match self.node_index(node) {
            Some(j) => {
                let ghost nodes0 = self.nodes@;
                let ghost life0 = self.node_life@;
                proof {
                    lemma_seq_remove(nodes0, j as int);
                    nodes0.remove_ensures(j as int);
                    life0.remove_ensures(j as int);
                }
                self.nodes.remove(j);
                self.node_life.remove(j);
                proof {
                    assert forall|k: int| 0 <= k < self.nodes@.len() implies (#[trigger] self.nodes@[k]).layer < self.layer_count by {
                        if k < j {
                            assert(self.nodes@[k] == nodes0[k]);
                        } else {
                            assert(self.nodes@[k] == nodes0[k + 1]);
                        }
                    }
                    if g0.all_alive() {
                        assert forall|k: int| 0 <= k < self.node_life@.len() implies #[trigger] self.node_life@[k] by {
                            if k < j {
                                assert(self.node_life@[k] == life0[k]);
                            } else {
                                assert(self.node_life@[k] == life0[k + 1]);
                            }
                        }
                    }
                    assert(self.nodes@ == nodes0.remove(j as int));
                    assert(self.node_life@ == life0.remove(j as int));
                    assert forall|n: Node| #[trigger] self.nodes@.contains(n) implies (self.node_alive(n) == g0.node_alive(n)) by {
                        lemma_remove_keeps_flag(nodes0, life0, j as int, n);
                        assert(self.node_alive(n) == (exists|k: int| 0 <= k < nodes0.remove(j as int).len()
                            && nodes0.remove(j as int)[k] == n && #[trigger] life0.remove(j as int)[k]));
                        assert(g0.node_alive(n) == (exists|k: int| 0 <= k < nodes0.len() && nodes0[k] == n && #[trigger] life0[k]));
                    }
                    assert forall|i: int| 0 <= i < self.arcs@.len() implies self.nodes@.contains((#[trigger] self.arcs@[i]).start_spec())
                        && self.nodes@.contains(self.arcs@[i].end_spec()) by {
                        assert(self.arcs@.contains(self.arcs@[i]));
                    }
                }
            },
            None => {},
        }
    }

    /// Deletes the nodes from which no path of arcs reaches an accepting node of the last layer.
    fn backward_pass(&mut self)
        requires
            old(self).structure(),
            old(self).all_alive(),
        ensures
            final(self).structure(),
            final(self).all_alive(),
            final(self).same_frame(*old(self)),
            forall|n: Node| #[trigger] final(self).nodes@.contains(n) <==> (old(self).nodes@.contains(n)
                && old(self).graph_co_reaches(n)),
            forall|a: Arc| #[trigger] final(self).arcs@.contains(a) <==> (old(self).arcs@.contains(a)
                && old(self).graph_co_reaches(a.end_spec())),
    {
        let ghost g0 = *self;
        let marked = self.mark_co_reaching();
        let mut all_nodes: Vec<Node> = Vec::new();
        let mut j: usize = 0;
        while j < self.nodes.len()
            invariant
                *self == g0,
                j <= self.nodes@.len(),
                all_nodes@ == self.nodes@.take(j as int),
            decreases self.nodes@.len() - j,
        {
            all_nodes.push(self.nodes[j]);
            j = j + 1;
            assert(all_nodes@ =~= self.nodes@.take(j as int));
        }
        assert(all_nodes@ =~= g0.nodes@);
        let mut k: usize = 0;
        while k < all_nodes.len()
            invariant
                g0.structure(),
                self.structure(),
                self.all_alive(),
                self.same_frame(g0),
                all_nodes@ == g0.nodes@,
                marked@.len() == g0.nodes@.len(),
                forall|m: int| 0 <= m < g0.nodes@.len() ==> (#[trigger] marked@[m] <==> g0.graph_co_reaches(g0.nodes@[m])),
                k <= all_nodes@.len(),
                forall|n: Node| #[trigger] self.nodes@.contains(n) <==> (g0.nodes@.contains(n)
                    && !(exists|m: int| 0 <= m < k && g0.nodes@[m] == n && !#[trigger] marked@[m])),
                forall|a: Arc| #[trigger] self.arcs@.contains(a) <==> (g0.arcs@.contains(a)
                    && !(exists|m: int| 0 <= m < k && g0.nodes@[m] == a.start_spec() && !#[trigger] marked@[m])
                    && !(exists|m: int| 0 <= m < k && g0.nodes@[m] == a.end_spec() && !#[trigger] marked@[m])),
            decreases all_nodes@.len() - k,
        {
            let node = all_nodes[k];
            let ghost before = *self;
            if !marked[k] {
                self.delete_node(node);
            }
            proof {
                assert forall|n: Node| #[trigger] self.nodes@.contains(n) <==> (g0.nodes@.contains(n)
                    && !(exists|m: int| 0 <= m < k + 1 && g0.nodes@[m] == n && !#[trigger] marked@[m])) by {
                    if exists|m: int| 0 <= m < k + 1 && g0.nodes@[m] == n && !#[trigger] marked@[m] {
                        let m = choose|m: int| 0 <= m < k + 1 && g0.nodes@[m] == n && !#[trigger] marked@[m];
                        if m < k {
                            assert(!before.nodes@.contains(n));
                        }
                    }
                    if before.nodes@.contains(n) && g0.nodes@.contains(n) && !marked@[k as int] && n != node {
                    }
                    if n == node && !marked@[k as int] {
                        assert(g0.nodes@[k as int] == n);
                    }
                }
                assert forall|a: Arc| #[trigger] self.arcs@.contains(a) <==> (g0.arcs@.contains(a)
                    && !(exists|m: int| 0 <= m < k + 1 && g0.nodes@[m] == a.start_spec() && !#[trigger] marked@[m])
                    && !(exists|m: int| 0 <= m < k + 1 && g0.nodes@[m] == a.end_spec() && !#[trigger] marked@[m])) by {
                    if exists|m: int| 0 <= m < k + 1 && g0.nodes@[m] == a.start_spec() && !#[trigger] marked@[m] {
                        let m = choose|m: int| 0 <= m < k + 1 && g0.nodes@[m] == a.start_spec() && !#[trigger] marked@[m];
                        if m < k {
                            assert(!before.arcs@.contains(a));
                        }
                    }
                    if exists|m: int| 0 <= m < k + 1 && g0.nodes@[m] == a.end_spec() && !#[trigger] marked@[m] {
                        let m = choose|m: int| 0 <= m < k + 1 && g0.nodes@[m] == a.end_spec() && !#[trigger] marked@[m];
                        if m < k {
                            assert(!before.arcs@.contains(a));
                        }
                    }
                }
            }
            k = k + 1;
        }
        proof {
            assert forall|n: Node| #[trigger] self.nodes@.contains(n) <==> (g0.nodes@.contains(n) && g0.graph_co_reaches(n)) by {
                if g0.nodes@.contains(n) {
                    let m0 = choose|m0: int| 0 <= m0 < g0.nodes@.len() && g0.nodes@[m0] == n;
                    assert(marked@[m0] == g0.graph_co_reaches(n));
                    if exists|m: int| 0 <= m < all_nodes@.len() && g0.nodes@[m] == n && !#[trigger] marked@[m] {
                        let m = choose|m: int| 0 <= m < all_nodes@.len() && g0.nodes@[m] == n && !#[trigger] marked@[m];
                        assert(m == m0);
                    }
                }
            }
            assert forall|a: Arc| #[trigger] self.arcs@.contains(a) <==> (g0.arcs@.contains(a) && g0.graph_co_reaches(a.end_spec())) by {
                if g0.arcs@.contains(a) {
                    let i = choose|i: int| 0 <= i < g0.arcs@.len() && g0.arcs@[i] == a;
                    assert(g0.nodes@.contains(a.start_spec()));
                    assert(g0.nodes@.contains(a.end_spec()));
                    let ms = choose|ms: int| 0 <= ms < g0.nodes@.len() && g0.nodes@[ms] == a.start_spec();
                    let me = choose|me: int| 0 <= me < g0.nodes@.len() && g0.nodes@[me] == a.end_spec();
                    g0.lemma_co_reaches_step(a.start_spec());
                    assert(marked@[ms] == g0.graph_co_reaches(a.start_spec()));
                    assert(marked@[me] == g0.graph_co_reaches(a.end_spec()));
                    if exists|m: int| 0 <= m < all_nodes@.len() && g0.nodes@[m] == a.start_spec() && !#[trigger] marked@[m] {
                        let m = choose|m: int| 0 <= m < all_nodes@.len() && g0.nodes@[m] == a.start_spec() && !#[trigger] marked@[m];
                        assert(m == ms);
                    }
                    if exists|m: int| 0 <= m < all_nodes@.len() && g0.nodes@[m] == a.end_spec() && !#[trigger] marked@[m] {
                        let m = choose|m: int| 0 <= m < all_nodes@.len() && g0.nodes@[m] == a.end_spec() && !#[trigger] marked@[m];
                        assert(m == me);
                    }
                }
            }
        }
    }

    /// The arcs of the graph are exactly the transitions of `nfa` that leave states
    /// reachable within the first `n` layers.
    spec fn arcs_are_steps(self, nfa: NFA, n: nat) -> bool {
        forall|x: Arc| #[trigger] self.arcs@.contains(x) <==> x.start_layer < n
            && reaches(nfa.step_fn(), nfa.starting_state as int, x.start_layer as nat, x.start_state as int)
            && nfa.step(x.start_state as int, x.letter, x.end_state as int)
    }

    /// In a graph of reachable transitions, a suffix run from a reachable state is a path of the graph.
    proof fn lemma_suffix_in_graph(self, nfa: NFA, l: nat, s: usize, q: Seq<Arc>)
        requires
            self.arcs_are_steps(nfa, (self.layer_count - 1) as nat),
            self.accepting@ == nfa.accepting_states@,
            1 <= self.layer_count < usize::MAX,
            reaches(nfa.step_fn(), nfa.starting_state as int, l, s as int),
            is_suffix_run(nfa.step_fn(), nfa.accepting_set(), (self.layer_count - 1) as nat, l as int, s as int, q),
        ensures
            self.graph_suffix(Node { layer: l as usize, state: s }, q),
        decreases q.len(),
    {
        let step = nfa.step_fn();
        let n = (self.layer_count - 1) as nat;
        let node = Node { layer: l as usize, state: s };
        if q.len() == 0 {
            lemma_accepting_set(nfa, s);
        } else {
            lemma_suffix_tail(step, nfa.accepting_set(), n, l as int, s as int, q);
            let a = q[0];
            assert(self.arcs@.contains(a));
            lemma_reaches_forward(nfa, l, s, a.letter, a.end_state);
            let r = q.drop_first();
            self.lemma_suffix_in_graph(nfa, l + 1, a.end_state, r);
            assert forall|k: int| 0 <= k < q.len() implies (#[trigger] q[k]).start_layer == node.layer + k
                && self.arcs@.contains(q[k]) by {
                if k > 0 {
                    assert(q[k] == r[k - 1]);
                }
            }
            assert forall|k: int| 0 <= k < q.len() - 1 implies (#[trigger] q[k]).end_state == q[k + 1].start_state by {
            }
            if r.len() > 0 {
                assert(q.last() == r.last());
            } else {
                lemma_accepting_set(nfa, a.end_state);
            }
            lemma_accepting_set(nfa, q.last().end_state);
        }
    }

    /// In a graph of reachable transitions, a path of the graph is a suffix run.
    proof fn lemma_graph_suffix_is_run(self, nfa: NFA, node: Node, q: Seq<Arc>)
        requires
            self.arcs_are_steps(nfa, (self.layer_count - 1) as nat),
            self.accepting@ == nfa.accepting_states@,
            1 <= self.layer_count,
            self.graph_suffix(node, q),
        ensures
            is_suffix_run(nfa.step_fn(), nfa.accepting_set(), (self.layer_count - 1) as nat, node.layer as int,
                node.state as int, q),
    {
        assert forall|k: int| 0 <= k < q.len() implies nfa.step_fn()(q[k].start_state as int, q[k].letter,
            (#[trigger] q[k]).end_state as int) by {
            assert(self.arcs@.contains(q[k]));
        }
        if q.len() == 0 {
            lemma_accepting_set(nfa, node.state);
        } else {
            lemma_accepting_set(nfa, q.last().end_state);
        }
    }

    /// The facts the forward pass establishes about `g0` (before the backward pass).
    spec fn forward_built(g0: LayeredGraph, nfa: NFA, n: nat) -> bool {
        &&& g0.structure()
        &&& g0.all_alive()
        &&& g0.layer_count == n + 1
        &&& g0.arcs_are_steps(nfa, n)
        &&& forall|x: Node| #[trigger] g0.nodes@.contains(x) <==> x.layer <= n
            && reaches(nfa.step_fn(), nfa.starting_state as int, x.layer as nat, x.state as int)
        &&& g0.accepting@ == nfa.accepting_states@
        &&& g0.starting == nfa.starting_state
        &&& forall|j: int| 0 <= j < n ==> (#[trigger] g0.domain@[j])@.to_set() == nfa.alphabet@.to_set()
    }

    /// A node survives the backward pass iff it lies on an accepting run.
    proof fn lemma_kept_node(g0: LayeredGraph, nfa: NFA, n: nat, x: Node)
        requires
            Self::forward_built(g0, nfa, n),
        ensures
            (g0.nodes@.contains(x) && g0.graph_co_reaches(x)) <==> (x.layer <= n && exists|p: Seq<Arc>|
                #[trigger] nfa.accepts_run(n, p) && run_state(nfa.starting_state as int, p, x.layer as int) == x.state as int),
    {
        let step = nfa.step_fn();
        let start = nfa.starting_state as int;
        let l = x.layer as nat;
        if g0.nodes@.contains(x) && g0.graph_co_reaches(x) {
            let pre = choose|q: Seq<Arc>| #[trigger] is_run(step, start, l, q) && run_state(start, q, l as int) == x.state as int;
            let suf = choose|q: Seq<Arc>| #[trigger] g0.graph_suffix(x, q);
            g0.lemma_graph_suffix_is_run(nfa, x, suf);
            lemma_join_runs(step, start, nfa.accepting_set(), n, l, pre, suf);
            let p = pre + suf;
            if l > 0 {
                assert(p[l - 1] == pre[l - 1]);
            }
            assert(nfa.accepts_run(n, p) && run_state(start, p, x.layer as int) == x.state as int);
        }
        if x.layer <= n && exists|p: Seq<Arc>| #[trigger] nfa.accepts_run(n, p)
            && run_state(start, p, x.layer as int) == x.state as int {
            let p = choose|p: Seq<Arc>| #[trigger] nfa.accepts_run(n, p) && run_state(start, p, x.layer as int) == x.state as int;
            lemma_split_run(step, start, nfa.accepting_set(), n, p, l);
            assert(reaches(step, start, l, x.state as int));
            assert(g0.nodes@.contains(x));
            g0.lemma_suffix_in_graph(nfa, l, x.state, p.skip(l as int));
            assert(g0.graph_suffix(x, p.skip(l as int)));
        }
    }

    /// An arc survives the backward pass iff it lies on an accepting run.
    proof fn lemma_kept_arc(g0: LayeredGraph, nfa: NFA, n: nat, a: Arc)
        requires
            Self::forward_built(g0, nfa, n),
        ensures
            (g0.arcs@.contains(a) && g0.graph_co_reaches(a.end_spec())) <==> exists|p: Seq<Arc>|
                #[trigger] nfa.accepts_run(n, p) && a.start_layer < n && p[a.start_layer as int] == a,
    {
        let step = nfa.step_fn();
        let start = nfa.starting_state as int;
        let l = a.start_layer as nat;
        if g0.arcs@.contains(a) && g0.graph_co_reaches(a.end_spec()) {
            let pre = choose|q: Seq<Arc>| #[trigger] is_run(step, start, l, q) && run_state(start, q, l as int) == a.start_state as int;
            lemma_run_push(step, start, l, pre, a);
            let pre2 = pre.push(a);
            let suf = choose|q: Seq<Arc>| #[trigger] g0.graph_suffix(a.end_spec(), q);
            g0.lemma_graph_suffix_is_run(nfa, a.end_spec(), suf);
            lemma_join_runs(step, start, nfa.accepting_set(), n, l + 1, pre2, suf);
            let p = pre2 + suf;
            assert(p[l as int] == a);
            assert(nfa.accepts_run(n, p));
        }
        if exists|p: Seq<Arc>| #[trigger] nfa.accepts_run(n, p) && a.start_layer < n && p[a.start_layer as int] == a {
            let p = choose|p: Seq<Arc>| #[trigger] nfa.accepts_run(n, p) && a.start_layer < n && p[a.start_layer as int] == a;
            lemma_split_run(step, start, nfa.accepting_set(), n, p, l + 1);
            let pre = p.take(l + 1int);
            lemma_run_last(step, start, l, pre);
            assert(pre[l as int] == a);
            assert(reaches(step, start, l, a.start_state as int)) by {
                assert(is_run(step, start, l, pre.drop_last()));
            }
            assert(g0.arcs@.contains(a));
            assert(reaches(step, start, l + 1, a.end_state as int)) by {
                assert(is_run(step, start, l + 1, pre));
            }
            g0.lemma_suffix_in_graph(nfa, l + 1, a.end_state, p.skip(l + 1int));
            assert(g0.graph_suffix(a.end_spec(), p.skip(l + 1int)));
        }
    }

    /// Facts about the graph built from `nfa`: its full paths are the accepting runs, and it is well formed.
    proof fn lemma_built(self, g0: LayeredGraph, nfa: NFA, n: nat)
        requires
            Self::forward_built(g0, nfa, n),
            self.structure(),
            self.all_alive(),
            self.same_frame(g0),
            forall|x: Node| #[trigger] self.nodes@.contains(x) <==> (g0.nodes@.contains(x) && g0.graph_co_reaches(x)),
            forall|a: Arc| #[trigger] self.arcs@.contains(a) <==> (g0.arcs@.contains(a) && g0.graph_co_reaches(a.end_spec())),
        ensures
            forall|p: Seq<Arc>| #[trigger] self.is_full_path(p) <==> nfa.accepts_run(n, p),
            forall|a: Arc| #[trigger] self.arcs@.contains(a) <==> exists|p: Seq<Arc>|
                #[trigger] nfa.accepts_run(n, p) && a.start_layer < n && p[a.start_layer as int] == a,
            forall|x: Node| #[trigger] self.nodes@.contains(x) <==> (x.layer <= n && exists|p: Seq<Arc>|
                #[trigger] nfa.accepts_run(n, p) && run_state(nfa.starting_state as int, p, x.layer as int) == x.state as int),
            self.wf(),
    {
        let step = nfa.step_fn();
        let start = nfa.starting_state as int;
        assert forall|a: Arc| #[trigger] self.arcs@.contains(a) <==> exists|p: Seq<Arc>|
            #[trigger] nfa.accepts_run(n, p) && a.start_layer < n && p[a.start_layer as int] == a by {
            Self::lemma_kept_arc(g0, nfa, n, a);
        }
        assert forall|x: Node| #[trigger] self.nodes@.contains(x) <==> (x.layer <= n && exists|p: Seq<Arc>|
            #[trigger] nfa.accepts_run(n, p) && run_state(start, p, x.layer as int) == x.state as int) by {
            Self::lemma_kept_node(g0, nfa, n, x);
        }
        assert forall|p: Seq<Arc>| #[trigger] self.is_full_path(p) <==> nfa.accepts_run(n, p) by {
            if nfa.accepts_run(n, p) {
                assert forall|j: int| 0 <= j < p.len() implies self.arcs@.contains(#[trigger] p[j]) by {
                    Self::lemma_kept_arc(g0, nfa, n, p[j]);
                }
                lemma_accepting_set(nfa, self.path_state(p, p.len() as int));
            }
            if self.is_full_path(p) {
                assert forall|j: int| 0 <= j < n implies step(p[j].start_state as int, p[j].letter,
                    (#[trigger] p[j]).end_state as int) by {
                    assert(self.arcs@.contains(p[j]));
                    assert(g0.arcs@.contains(p[j]));
                }
                lemma_accepting_set(nfa, self.path_state(p, p.len() as int));
                assert(nfa.accepts_run(n, p));
            }
        }
        // every arc and node is alive, so no arc dangles
        assert forall|i: int| 0 <= i < self.arcs@.len() && #[trigger] self.arc_life@[i] implies
            self.node_alive(self.arcs@[i].start_spec()) && self.node_alive(self.arcs@[i].end_spec()) by {
            let js = choose|js: int| 0 <= js < self.nodes@.len() && self.nodes@[js] == self.arcs@[i].start_spec();
            let je = choose|je: int| 0 <= je < self.nodes@.len() && self.nodes@[je] == self.arcs@[i].end_spec();
            assert(self.node_life@[js]);
            assert(self.node_life@[je]);
        }
        // every node lies on a full path of living arcs
        assert forall|j: int| 0 <= j < self.nodes@.len() && #[trigger] self.node_life@[j] implies self.supported(self.nodes@[j]) by {
            let x = self.nodes@[j];
            assert(self.nodes@.contains(x));
            let p = choose|p: Seq<Arc>| #[trigger] nfa.accepts_run(n, p) && run_state(start, p, x.layer as int) == x.state as int;
            assert(self.is_full_path(p));
            assert forall|k: int| 0 <= k < p.len() implies self.arc_alive(#[trigger] p[k]) by {
                assert(self.arcs@.contains(p[k]));
                let i = choose|i: int| 0 <= i < self.arcs@.len() && self.arcs@[i] == p[k];
                assert(self.arc_life@[i]);
            }
            assert(self.node_on(p, x));
            self.lemma_on_alive_path_supported(p, x);
        }
        // every arc lies on a full path within the domains
        assert forall|i: int| 0 <= i < self.arcs@.len() implies (#[trigger] self.arc_life@[i] <==> self.supported_arc(self.arcs@[i])) by {
            let a = self.arcs@[i];
            assert(self.arcs@.contains(a));
            let p = choose|p: Seq<Arc>| #[trigger] nfa.accepts_run(n, p) && a.start_layer < n && p[a.start_layer as int] == a;
            assert(self.is_full_path(p));
            assert forall|j: int| 0 <= j < p.len() implies #[trigger] self.domain@[j]@.contains(p[j].letter) by {
                assert(step(p[j].start_state as int, p[j].letter, p[j].end_state as int));
                assert(nfa.alphabet@.contains(p[j].letter));
                assert(nfa.alphabet@.to_set().contains(p[j].letter));
                assert(self.domain@[j]@.to_set().contains(p[j].letter));
            }
            assert(self.path_in_domain(p));
        }
    }

    /// The layered graph of `nfa` unrolled over `var_count` variables: exactly the
    /// nodes and arcs of its accepting runs over `var_count` letters, all alive,
    /// with every variable's domain the whole alphabet.
    pub fn from_nfa(nfa: NFA, var_count: usize) -> (g: LayeredGraph)
        requires
            var_count + 1 < usize::MAX,
        ensures
            g.wf(),
            g.layers() == var_count + 1,
            g.alphabet_seq().to_set() == nfa.alphabet@.to_set(),
            g.alphabet_seq().no_duplicates(),
            increasing(g.alphabet_seq()),
            forall|j: int| 0 <= j < var_count ==> #[trigger] g.domain_of(j) == nfa.alphabet@.to_set(),
            forall|p: Seq<Arc>| #[trigger] g.is_full_path(p) <==> nfa.accepts_run(var_count as nat, p),
            forall|a: Arc| #[trigger] g.has_arc(a) <==> exists|p: Seq<Arc>|
                #[trigger] nfa.accepts_run(var_count as nat, p) && a.start_layer < var_count && p[a.start_layer as int] == a,
            forall|x: Node| #[trigger] g.node_set().contains(x) <==> (x.layer <= var_count && exists|p: Seq<Arc>|
                #[trigger] nfa.accepts_run(var_count as nat, p)
                    && run_state(nfa.starting_state as int, p, x.layer as int) == x.state as int),
    {
        let (nodes, arcs) = forward_pass(&nfa, var_count);
        let mut node_life: Vec<bool> = Vec::new();
        while node_life.len() < nodes.len()
            invariant
                node_life@.len() <= nodes@.len(),
                forall|j: int| 0 <= j < node_life@.len() ==> #[trigger] node_life@[j],
            decreases nodes@.len() - node_life@.len(),
        {
            node_life.push(true);
        }
        let mut arc_life: Vec<bool> = Vec::new();
        while arc_life.len() < arcs.len()
            invariant
                arc_life@.len() <= arcs@.len(),
                forall|i: int| 0 <= i < arc_life@.len() ==> #[trigger] arc_life@[i],
            decreases arcs@.len() - arc_life@.len(),
        {
            arc_life.push(true);
        }
        let alphabet = sorted_letters(&nfa.alphabet);
        let mut domain: Vec<Vec<Letter>> = Vec::new();
        while domain.len() < var_count
            invariant
                domain@.len() <= var_count,
                alphabet@.no_duplicates(),
                forall|j: int| 0 <= j < domain@.len() ==> (#[trigger] domain@[j])@ == alphabet@,
            decreases var_count - domain@.len(),
        {
            domain.push(alphabet.clone());
        }
        let accepting = nfa.accepting_states.clone();
        let mut g = LayeredGraph {
            alphabet,
            layer_count: var_count + 1,
            nodes,
            node_life,
            arcs,
            arc_life,
            accepting,
            starting: nfa.starting_state,
            domain,
            state_count: nfa.states,
        };
        let ghost g0 = g;
        proof {
            assert forall|i: int| 0 <= i < g.arcs@.len() implies g.nodes@.contains((#[trigger] g.arcs@[i]).start_spec())
                && g.nodes@.contains(g.arcs@[i].end_spec()) && g.arcs@[i].start_layer + 1 < g.layer_count by {
                let a = g.arcs@[i];
                assert(g.arcs@.contains(a));
                lemma_reaches_forward(nfa, a.start_layer as nat, a.start_state, a.letter, a.end_state);
            }
            assert forall|j: int| 0 <= j < g.nodes@.len() implies (#[trigger] g.nodes@[j]).layer < g.layer_count by {
                assert(g.nodes@.contains(g.nodes@[j]));
            }
            assert forall|j: int| 0 <= j < g.domain@.len() implies (#[trigger] g.domain@[j])@.no_duplicates() by {}
            assert(g.structure());
            assert(g.arcs_are_steps(nfa, var_count as nat));
            assert forall|j: int| 0 <= j < var_count implies (#[trigger] g.domain@[j])@.to_set() == nfa.alphabet@.to_set() by {
            }
            assert(Self::forward_built(g0, nfa, var_count as nat));
        }
        g.backward_pass();
        proof {
            g.lemma_built(g0, nfa, var_count as nat);
            assert forall|j: int| 0 <= j < var_count implies #[trigger] g.domain_of(j) == nfa.alphabet@.to_set() by {
                assert(g.domain@[j] == g0.domain@[j]);
            }
            assert forall|x: Node| #[trigger] g.node_set().contains(x) <==> g.nodes@.contains(x) by {}
        }
        g
    }

    /// The layered graph of `dfa` unrolled over `var_count` variables: exactly the
    /// nodes and arcs of its accepting runs over `var_count` letters, all alive,
    /// with every variable's domain the whole alphabet.
    pub fn from(dfa: DFA, var_count: usize) -> (g: LayeredGraph)
        requires
            var_count + 1 < usize::MAX,
        ensures
            g.wf(),
            g.layers() == var_count + 1,
            g.alphabet_seq().to_set() == dfa.alphabet@.to_set(),
            g.alphabet_seq().no_duplicates(),
            increasing(g.alphabet_seq()),
            forall|j: int| 0 <= j < var_count ==> #[trigger] g.domain_of(j) == dfa.alphabet@.to_set(),
            forall|p: Seq<Arc>| #[trigger] g.is_full_path(p) <==> dfa.accepts_run(var_count as nat, p),
            forall|a: Arc| #[trigger] g.has_arc(a) <==> exists|p: Seq<Arc>|
                #[trigger] dfa.accepts_run(var_count as nat, p) && a.start_layer < var_count && p[a.start_layer as int] == a,
            forall|x: Node| #[trigger] g.node_set().contains(x) <==> (x.layer <= var_count && exists|p: Seq<Arc>|
                #[trigger] dfa.accepts_run(var_count as nat, p)
                    && run_state(dfa.starting_state as int, p, x.layer as int) == x.state as int),
    {
        let nfa = dfa.to_nfa();
        let g = Self::from_nfa(nfa, var_count);
        proof {
            assert(nfa.step_fn() =~= dfa.step_fn());
            assert(nfa.accepting_set() == dfa.accepting_set());
            assert forall|n: nat, p: Seq<Arc>| #[trigger] dfa.accepts_run(n, p) == nfa.accepts_run(n, p) by {}
            assert forall|a: Arc| #[trigger] g.has_arc(a) <==> exists|p: Seq<Arc>|
                #[trigger] dfa.accepts_run(var_count as nat, p) && a.start_layer < var_count && p[a.start_layer as int] == a by {
                if g.has_arc(a) {
                    let p = choose|p: Seq<Arc>| #[trigger] nfa.accepts_run(var_count as nat, p) && a.start_layer < var_count
                        && p[a.start_layer as int] == a;
                    assert(dfa.accepts_run(var_count as nat, p));
                }
                if exists|p: Seq<Arc>| #[trigger] dfa.accepts_run(var_count as nat, p) && a.start_layer < var_count
                    && p[a.start_layer as int] == a {
                    let p = choose|p: Seq<Arc>| #[trigger] dfa.accepts_run(var_count as nat, p) && a.start_layer < var_count
                        && p[a.start_layer as int] == a;
                    assert(nfa.accepts_run(var_count as nat, p));
                }
            }
            assert forall|x: Node| #[trigger] g.node_set().contains(x) <==> (x.layer <= var_count && exists|p: Seq<Arc>|
                #[trigger] dfa.accepts_run(var_count as nat, p)
                    && run_state(dfa.starting_state as int, p, x.layer as int) == x.state as int) by {
                if g.node_set().contains(x) {
                    let p = choose|p: Seq<Arc>| #[trigger] nfa.accepts_run(var_count as nat, p)
                        && run_state(nfa.starting_state as int, p, x.layer as int) == x.state as int;
                    assert(dfa.accepts_run(var_count as nat, p));
                }
                if x.layer <= var_count && exists|p: Seq<Arc>| #[trigger] dfa.accepts_run(var_count as nat, p)
                    && run_state(dfa.starting_state as int, p, x.layer as int) == x.state as int {
                    let p = choose|p: Seq<Arc>| #[trigger] dfa.accepts_run(var_count as nat, p)
                        && run_state(dfa.starting_state as int, p, x.layer as int) == x.state as int;
                    assert(nfa.accepts_run(var_count as nat, p));
                }
            }
        }
        g
    }

    // ------------------------------------------------------ public facts

    /// A full path has one arc per variable.
    pub proof fn lemma_full_path_len(self, p: Seq<Arc>)
        requires
            self.is_full_path(p),
        ensures
            p.len() + 1 == self.layers(),
            forall|j: int| 0 <= j < p.len() ==> (#[trigger] p[j]).start_layer == j,
    {
    }

    /// An arc of the graph is alive exactly when it lies on a full path whose
    /// letters are all still in their domains.
    pub proof fn lemma_arc_alive_iff_on_solution(self, a: Arc)
        requires
            self.wf(),
            self.has_arc(a),
        ensures
            self.arc_alive(a) <==> self.supported_arc(a),
    {
        let i = choose|i: int| 0 <= i < self.arcs@.len() && self.arcs@[i] == a;
        self.lemma_arc_alive_at(i);
    }

    /// Over at least one variable, a node is alive exactly when it lies on a
    /// full path whose letters are all still in their domains.
    pub proof fn lemma_node_alive_iff_on_solution(self, n: Node)
        requires
            self.wf(),
            self.layers() > 1,
        ensures
            self.node_alive(n) <==> exists|p: Seq<Arc>|
                #[trigger] self.is_full_path(p) && self.path_in_domain(p) && self.node_on(p, n),
    {
        if self.node_alive(n) {
            let j = choose|j: int| 0 <= j < self.nodes@.len() && self.nodes@[j] == n && #[trigger] self.node_life@[j];
            assert(self.supported(self.nodes@[j]));
            if self.has_alive_in(n) {
                let i = choose|i: int| 0 <= i < self.arcs@.len() && #[trigger] self.arc_life@[i] && self.arcs@[i].end_spec() == n;
                let a = self.arcs@[i];
                assert(self.supported_arc(a));
                let p = choose|p: Seq<Arc>| #[trigger] self.is_full_path(p) && self.path_in_domain(p)
                    && a.start_layer < p.len() && p[a.start_layer as int] == a;
                assert(self.node_on(p, n));
            } else {
                assert(self.is_first(n));
                assert(!self.is_last(n));
                let i = choose|i: int| 0 <= i < self.arcs@.len() && #[trigger] self.arc_life@[i] && self.arcs@[i].start_spec() == n;
                let a = self.arcs@[i];
                assert(self.supported_arc(a));
                let p = choose|p: Seq<Arc>| #[trigger] self.is_full_path(p) && self.path_in_domain(p)
                    && a.start_layer < p.len() && p[a.start_layer as int] == a;
                assert(self.node_on(p, n));
            }
        }
        if exists|p: Seq<Arc>| #[trigger] self.is_full_path(p) && self.path_in_domain(p) && self.node_on(p, n) {
            let p = choose|p: Seq<Arc>| #[trigger] self.is_full_path(p) && self.path_in_domain(p) && self.node_on(p, n);
            let l = n.layer as int;
            let i = choose|i: int| 0 <= i < self.arcs@.len() && self.arcs@[i] == p[if l < p.len() { l } else { l - 1 }];
            if l < p.len() {
                assert(self.supported_arc(p[l]));
                assert(self.arc_life@[i]);
                assert(p[l].start_spec() == n);
            } else {
                assert(self.supported_arc(p[l - 1]));
                assert(self.arc_life@[i]);
                assert(p[l - 1].end_spec() == n);
            }
        }
    }

    /// `self` is `g0` after killing each `(variable, value)` pair of `kills`: the
    /// same full paths, and each domain of `g0` without the values killed there.
    pub open spec fn kills_applied(self, g0: LayeredGraph, kills: Seq<(usize, Letter)>) -> bool {
        &&& self.wf()
        &&& self.layers() == g0.layers()
        &&& forall|p: Seq<Arc>| #[trigger] self.is_full_path(p) == g0.is_full_path(p)
        &&& forall|j: int, v: Letter| 0 <= j < self.layers() - 1 ==>
            (#[trigger] self.domain_of(j).contains(v) <==> g0.domain_of(j).contains(v) && !kills.contains((j as usize, v)))
    }

    /// A well-formed graph is itself after no kill.
    pub proof fn lemma_no_kills(self)
        requires
            self.wf(),
        ensures
            self.kills_applied(self, Seq::empty()),
    {
    }

    /// One more kill, as `kill_value` states it, adds its pair to the kills applied.
    pub proof fn lemma_one_more_kill(self, g0: LayeredGraph, kills: Seq<(usize, Letter)>, next: LayeredGraph, j: usize, v: Letter)
        requires
            self.kills_applied(g0, kills),
            j + 1 < self.layers(),
            next.wf(),
            next.layers() == self.layers(),
            forall|p: Seq<Arc>| #[trigger] next.is_full_path(p) == self.is_full_path(p),
            next.domain_of(j as int) == self.domain_of(j as int).remove(v),
            forall|k: int| 0 <= k < next.layers() - 1 && k != j ==> #[trigger] next.domain_of(k) == self.domain_of(k),
        ensures
            next.kills_applied(g0, kills.push((j, v))),
    {
        assert forall|k: int, w: Letter| 0 <= k < next.layers() - 1 implies
            (#[trigger] next.domain_of(k).contains(w) <==> g0.domain_of(k).contains(w) && !kills.push((j, v)).contains((k as usize, w))) by {
            assert(kills.push((j, v))[kills.len() as int] == (j, v));
            if kills.push((j, v)).contains((k as usize, w)) && !kills.contains((k as usize, w)) {
                let m = choose|m: int| 0 <= m < kills.push((j, v)).len() && kills.push((j, v))[m] == (k as usize, w);
                if m < kills.len() {
                    assert(kills[m] == (k as usize, w));
                }
            }
            if kills.contains((k as usize, w)) {
                let m = choose|m: int| 0 <= m < kills.len() && kills[m] == (k as usize, w);
                assert(kills.push((j, v))[m] == (k as usize, w));
            }
        }
    }

    /// After a series of kills, a value lives at a variable exactly when an
    /// accepted path of the first graph within its domains carries it there and
    /// takes none of the killed pairs.
    pub proof fn lemma_kills_living(self, g0: LayeredGraph, kills: Seq<(usize, Letter)>, i: int, v: Letter)
        requires
            g0.wf(),
            self.kills_applied(g0, kills),
        ensures
            (exists|p: Seq<Arc>| #[trigger] self.is_full_path(p) && self.path_in_domain(p) && i < p.len() && p[i].letter == v)
                <==> (exists|p: Seq<Arc>| #[trigger] g0.is_full_path(p) && g0.path_in_domain(p) && i < p.len()
                    && p[i].letter == v && forall|j: int| 0 <= j < p.len() ==> !kills.contains((j as usize, #[trigger] p[j].letter))),
    {
        if exists|p: Seq<Arc>| #[trigger] self.is_full_path(p) && self.path_in_domain(p) && i < p.len() && p[i].letter == v {
            let p = choose|p: Seq<Arc>| #[trigger] self.is_full_path(p) && self.path_in_domain(p) && i < p.len() && p[i].letter == v;
            self.lemma_path_survives(g0, kills, p);
            assert(g0.is_full_path(p));
        }
        if exists|p: Seq<Arc>| #[trigger] g0.is_full_path(p) && g0.path_in_domain(p) && i < p.len()
            && p[i].letter == v && forall|j: int| 0 <= j < p.len() ==> !kills.contains((j as usize, #[trigger] p[j].letter)) {
            let p = choose|p: Seq<Arc>| #[trigger] g0.is_full_path(p) && g0.path_in_domain(p) && i < p.len()
                && p[i].letter == v && forall|j: int| 0 <= j < p.len() ==> !kills.contains((j as usize, #[trigger] p[j].letter));
            assert(self.is_full_path(p));
            self.lemma_path_survives(g0, kills, p);
            assert(self.path_in_domain(p));
        }
    }

    /// After a series of kills, the graph has a solution exactly when an
    /// accepted path of the first graph within its domains takes none of the
    /// killed pairs.
    pub proof fn lemma_kills_consistent(self, g0: LayeredGraph, kills: Seq<(usize, Letter)>)
        requires
            g0.wf(),
            self.kills_applied(g0, kills),
        ensures
            self.has_solution() <==> exists|p: Seq<Arc>| #[trigger] g0.is_full_path(p) && g0.path_in_domain(p)
                && forall|j: int| 0 <= j < p.len() ==> !kills.contains((j as usize, #[trigger] p[j].letter)),
    {
        if self.has_solution() {
            let p = choose|p: Seq<Arc>| #[trigger] self.is_full_path(p) && self.path_in_domain(p);
            self.lemma_path_survives(g0, kills, p);
            assert(g0.is_full_path(p));
        }
        if exists|p: Seq<Arc>| #[trigger] g0.is_full_path(p) && g0.path_in_domain(p)
            && forall|j: int| 0 <= j < p.len() ==> !kills.contains((j as usize, #[trigger] p[j].letter)) {
            let p = choose|p: Seq<Arc>| #[trigger] g0.is_full_path(p) && g0.path_in_domain(p)
                && forall|j: int| 0 <= j < p.len() ==> !kills.contains((j as usize, #[trigger] p[j].letter));
            assert(self.is_full_path(p));
            self.lemma_path_survives(g0, kills, p);
            assert(self.path_in_domain(p));
        }
    }

    /// Some full path within the domains passes the `i`-th variable, so that
    /// variable has a living value.
    pub open spec fn variable_lives(self, i: int) -> bool {
        exists|p: Seq<Arc>| #[trigger] self.is_full_path(p) && self.path_in_domain(p) && i < p.len()
    }

    /// Over at least one variable, the graph has a solution exactly when every
    /// variable has a living value.
    pub proof fn lemma_solution_iff_all_living(self)
        requires
            self.wf(),
            self.layers() > 1,
        ensures
            self.has_solution() <==> forall|i: int| 0 <= i < self.layers() - 1 ==> #[trigger] self.variable_lives(i),
    {
        if self.has_solution() {
            let p = choose|p: Seq<Arc>| #[trigger] self.is_full_path(p) && self.path_in_domain(p);
            self.lemma_full_path_len(p);
            assert forall|i: int| 0 <= i < self.layers() - 1 implies #[trigger] self.variable_lives(i) by {
                assert(self.is_full_path(p) && self.path_in_domain(p) && i < p.len());
            }
        }
        if forall|i: int| 0 <= i < self.layers() - 1 ==> #[trigger] self.variable_lives(i) {
            assert(self.variable_lives(0));
            let p = choose|p: Seq<Arc>| #[trigger] self.is_full_path(p) && self.path_in_domain(p) && 0 < p.len();
            assert(self.is_full_path(p) && self.path_in_domain(p));
        }
    }

    /// After a series of kills on the graph of `dfa` over `n` variables (as
    /// `from` builds it), a value lives at a variable exactly when some word the
    /// automaton accepts carries it there and takes none of the killed pairs; and
    /// the graph has a solution exactly when some accepted word takes none of them.
    pub proof fn lemma_kills_from_dfa(self, g0: LayeredGraph, dfa: DFA, n: usize, kills: Seq<(usize, Letter)>, i: int, v: Letter)
        requires
            g0.wf(),
            g0.layers() == n + 1,
            forall|j: int| 0 <= j < n ==> #[trigger] g0.domain_of(j) == dfa.alphabet@.to_set(),
            forall|p: Seq<Arc>| #[trigger] g0.is_full_path(p) <==> dfa.accepts_run(n as nat, p),
            self.kills_applied(g0, kills),
        ensures
            (exists|p: Seq<Arc>| #[trigger] self.is_full_path(p) && self.path_in_domain(p) && i < p.len() && p[i].letter == v)
                <==> (exists|p: Seq<Arc>| #[trigger] dfa.accepts_run(n as nat, p) && i < p.len() && p[i].letter == v
                    && forall|j: int| 0 <= j < p.len() ==> !kills.contains((j as usize, #[trigger] p[j].letter))),
            self.has_solution() <==> exists|p: Seq<Arc>| #[trigger] dfa.accepts_run(n as nat, p)
                && forall|j: int| 0 <= j < p.len() ==> !kills.contains((j as usize, #[trigger] p[j].letter)),
    {
        self.lemma_kills_living(g0, kills, i, v);
        self.lemma_kills_consistent(g0, kills);
        assert forall|p: Seq<Arc>| #[trigger] dfa.accepts_run(n as nat, p) implies g0.is_full_path(p) && g0.path_in_domain(p) by {
            assert(g0.is_full_path(p));
            g0.lemma_full_path_len(p);
            g0.lemma_in_domain_iff(p);
            assert forall|j: int| 0 <= j < p.len() implies #[trigger] g0.domain_of(j).contains(p[j].letter) by {
                assert(dfa.step(p[j].start_state as int, p[j].letter, p[j].end_state as int));
                assert(dfa.alphabet@.contains(p[j].letter));
            }
        }
        if exists|p: Seq<Arc>| #[trigger] g0.is_full_path(p) && g0.path_in_domain(p) && i < p.len()
            && p[i].letter == v && forall|j: int| 0 <= j < p.len() ==> !kills.contains((j as usize, #[trigger] p[j].letter)) {
            let p = choose|p: Seq<Arc>| #[trigger] g0.is_full_path(p) && g0.path_in_domain(p) && i < p.len()
                && p[i].letter == v && forall|j: int| 0 <= j < p.len() ==> !kills.contains((j as usize, #[trigger] p[j].letter));
            assert(dfa.accepts_run(n as nat, p));
        }
        if exists|p: Seq<Arc>| #[trigger] dfa.accepts_run(n as nat, p) && i < p.len() && p[i].letter == v
            && forall|j: int| 0 <= j < p.len() ==> !kills.contains((j as usize, #[trigger] p[j].letter)) {
            let p = choose|p: Seq<Arc>| #[trigger] dfa.accepts_run(n as nat, p) && i < p.len() && p[i].letter == v
                && forall|j: int| 0 <= j < p.len() ==> !kills.contains((j as usize, #[trigger] p[j].letter));
            assert(g0.is_full_path(p) && g0.path_in_domain(p));
        }
        if exists|p: Seq<Arc>| #[trigger] g0.is_full_path(p) && g0.path_in_domain(p)
            && forall|j: int| 0 <= j < p.len() ==> !kills.contains((j as usize, #[trigger] p[j].letter)) {
            let p = choose|p: Seq<Arc>| #[trigger] g0.is_full_path(p) && g0.path_in_domain(p)
                && forall|j: int| 0 <= j < p.len() ==> !kills.contains((j as usize, #[trigger] p[j].letter));
            assert(dfa.accepts_run(n as nat, p));
        }
        if exists|p: Seq<Arc>| #[trigger] dfa.accepts_run(n as nat, p)
            && forall|j: int| 0 <= j < p.len() ==> !kills.contains((j as usize, #[trigger] p[j].letter)) {
            let p = choose|p: Seq<Arc>| #[trigger] dfa.accepts_run(n as nat, p)
                && forall|j: int| 0 <= j < p.len() ==> !kills.contains((j as usize, #[trigger] p[j].letter));
            assert(g0.is_full_path(p) && g0.path_in_domain(p));
        }
    }

    /// A full path lies within the domains after the kills exactly when it lies
    /// within the first graph's domains and takes no killed pair.
    proof fn lemma_path_survives(self, g0: LayeredGraph, kills: Seq<(usize, Letter)>, p: Seq<Arc>)
        requires
            g0.wf(),
            self.kills_applied(g0, kills),
            self.is_full_path(p),
        ensures
            self.path_in_domain(p) <==> g0.path_in_domain(p)
                && forall|j: int| 0 <= j < p.len() ==> !kills.contains((j as usize, #[trigger] p[j].letter)),
    {
        self.lemma_full_path_len(p);
        self.lemma_in_domain_iff(p);
        g0.lemma_in_domain_iff(p);
        if self.path_in_domain(p) {
            assert forall|j: int| 0 <= j < p.len() implies #[trigger] g0.domain_of(j).contains(p[j].letter) by {
                assert(self.domain_of(j).contains(p[j].letter));
            }
            assert forall|j: int| 0 <= j < p.len() implies !kills.contains((j as usize, #[trigger] p[j].letter)) by {
                assert(self.domain_of(j).contains(p[j].letter));
            }
        }
        if g0.path_in_domain(p) && forall|j: int| 0 <= j < p.len() ==> !kills.contains((j as usize, #[trigger] p[j].letter)) {
            assert forall|j: int| 0 <= j < p.len() implies #[trigger] self.domain_of(j).contains(p[j].letter) by {
                assert(g0.domain_of(j).contains(p[j].letter));
                assert(!kills.contains((j as usize, p[j].letter)));
            }
        }
    }

    /// Graphs of one shape have the same arcs.
    pub proof fn lemma_same_shape_arcs(self, other: LayeredGraph)
        requires
            self.same_shape(other),
        ensures
            forall|a: Arc| #[trigger] self.has_arc(a) == other.has_arc(a),
    {
    }

    /// Every graph has its own shape.
    pub proof fn lemma_same_shape_refl(self)
        ensures
            self.same_shape(self),
    {
    }

    /// A solution is a full path within the domains.
    pub proof fn lemma_has_solution(self)
        ensures
            self.has_solution() <==> exists|p: Seq<Arc>| #[trigger] self.is_full_path(p) && self.path_in_domain(p),
    {
    }

    /// Graphs in the same state have the same shape.
    pub proof fn lemma_same_state_shape(self, other: LayeredGraph)
        requires
            self.same_state(other),
        ensures
            self.same_shape(other),
    {
    }

    /// Sharing a shape is symmetric.
    pub proof fn lemma_same_shape_sym(self, other: LayeredGraph)
        requires
            self.same_shape(other),
        ensures
            other.same_shape(self),
    {
    }

    /// Sharing a shape carries over.
    pub proof fn lemma_same_shape_trans(self, mid: LayeredGraph, other: LayeredGraph)
        requires
            self.same_shape(mid),
            mid.same_shape(other),
        ensures
            self.same_shape(other),
    {
    }

    /// A path is within the domains iff each of its letters is in its variable's domain.
    pub proof fn lemma_in_domain_iff(self, p: Seq<Arc>)
        requires
            self.wf(),
            p.len() + 1 == self.layers(),
        ensures
            self.path_in_domain(p) <==> forall|j: int| 0 <= j < p.len() ==> #[trigger] self.domain_of(j).contains(p[j].letter),
    {
        if self.path_in_domain(p) {
            assert forall|j: int| 0 <= j < p.len() implies #[trigger] self.domain_of(j).contains(p[j].letter) by {
                assert(self.domain@[j]@.contains(p[j].letter));
            }
        }
        if forall|j: int| 0 <= j < p.len() ==> #[trigger] self.domain_of(j).contains(p[j].letter) {
            assert forall|j: int| 0 <= j < p.len() implies #[trigger] self.domain@[j]@.contains(p[j].letter) by {
                assert(self.domain_of(j).contains(p[j].letter));
            }
        }
    }

    /// A copy of the graph.
    pub fn duplicate(&self) -> (g: LayeredGraph)
        ensures
            g.same_state(*self),
            g.alphabet_seq() == self.alphabet_seq(),
            self.wf() ==> g.wf(),
            forall|p: Seq<Arc>| #[trigger] g.is_full_path(p) == self.is_full_path(p),
            forall|p: Seq<Arc>| #[trigger] g.path_in_domain(p) == self.path_in_domain(p),
            g.layers() == self.layers(),
            self.wf() ==> forall|j: int| 0 <= j < self.layers() - 1 ==> #[trigger] g.domain_of(j) == self.domain_of(j),
    {
        let mut domain: Vec<Vec<Letter>> = Vec::new();
        let mut j: usize = 0;
        while j < self.domain.len()
            invariant
                j <= self.domain@.len(),
                domain@.len() == j,
                forall|k: int| 0 <= k < j ==> (#[trigger] domain@[k])@ == self.domain@[k]@,
            decreases self.domain@.len() - j,
        {
            domain.push(self.domain[j].clone());
            j = j + 1;
        }
        let g = LayeredGraph {
            alphabet: self.alphabet.clone(),
            layer_count: self.layer_count,
            nodes: self.nodes.clone(),
            node_life: self.node_life.clone(),
            arcs: self.arcs.clone(),
            arc_life: self.arc_life.clone(),
            accepting: self.accepting.clone(),
            starting: self.starting,
            domain,
            state_count: self.state_count,
        };
        proof {
            assert(g.nodes@ =~= self.nodes@);
            assert(g.arcs@ =~= self.arcs@);
            assert(g.alphabet@ =~= self.alphabet@);
            assert(g.accepting@ =~= self.accepting@);
            assert(g.node_life@ =~= self.node_life@);
            assert(g.arc_life@ =~= self.arc_life@);
            assert forall|p: Seq<Arc>| #[trigger] g.path_in_domain(p) == self.path_in_domain(p) by {
                if g.path_in_domain(p) {
                    assert forall|k: int| 0 <= k < p.len() implies #[trigger] self.domain@[k]@.contains(p[k].letter) by {
                        assert(g.domain@[k]@.contains(p[k].letter));
                    }
                }
                if self.path_in_domain(p) {
                    assert forall|k: int| 0 <= k < p.len() implies #[trigger] g.domain@[k]@.contains(p[k].letter) by {
                        assert(self.domain@[k]@.contains(p[k].letter));
                    }
                }
            }
            assert forall|k: int| 0 <= k < self.domain@.len() implies #[trigger] g.domain_of(k) == self.domain_of(k) by {
                assert(g.domain@[k]@ == self.domain@[k]@);
            }
            if self.wf() {
                assert forall|a: Arc| #[trigger] g.supported_arc(a) == self.supported_arc(a) by {
                    if g.supported_arc(a) {
                        let p = choose|p: Seq<Arc>| #[trigger] g.is_full_path(p) && g.path_in_domain(p) && a.start_layer < p.len()
                            && p[a.start_layer as int] == a;
                        assert(self.is_full_path(p));
                    }
                    if self.supported_arc(a) {
                        let p = choose|p: Seq<Arc>| #[trigger] self.is_full_path(p) && self.path_in_domain(p) && a.start_layer < p.len()
                            && p[a.start_layer as int] == a;
                        assert(g.is_full_path(p));
                    }
                }
                assert forall|n: Node| #[trigger] g.node_alive(n) == self.node_alive(n) by {}
                assert forall|j: int| 0 <= j < g.domain@.len() implies (#[trigger] g.domain@[j])@.no_duplicates() by {
                    assert(self.domain@[j]@.no_duplicates());
                }
                assert(g.structure());
                assert(g.no_dangling());
                assert forall|j: int| 0 <= j < g.nodes@.len() && #[trigger] g.node_life@[j] implies g.supported(g.nodes@[j]) by {
                    assert(self.supported(self.nodes@[j]));
                    assert(g.has_alive_in(g.nodes@[j]) == self.has_alive_in(g.nodes@[j]));
                    assert(g.has_alive_out(g.nodes@[j]) == self.has_alive_out(g.nodes@[j]));
                }
                assert(g.alive_iff_supported());
            }
        }
        g
    }

    // ------------------------------------------------------- explanations

    /// The arc may be used when the `idx`-th variable is assumed to be `letter`:
    /// at that variable it must carry `letter`, elsewhere a letter still in its domain.
    pub closed spec fn usable_arc(self, e: Arc, idx: int, letter: Letter) -> bool {
        if e.start_layer == idx {
            e.letter == letter
        } else {
            self.domain@[e.start_layer as int]@.contains(e.letter)
        }
    }

    /// A non-empty path of usable arcs leads from `n` to an accepting node of the last layer.
    pub closed spec fn reaches_with(self, n: Node, idx: int, letter: Letter) -> bool {
        exists|q: Seq<Arc>| #[trigger] self.graph_suffix(n, q) && q.len() > 0
            && forall|k: int| 0 <= k < q.len() ==> self.usable_arc(#[trigger] q[k], idx, letter)
    }

    /// `m` is an accepting node of the last layer, or already known to reach one.
    spec fn target_done(self, m: Node, marks: Seq<bool>) -> bool {
        ||| (self.nodes@.contains(m) && m.layer + 1 == self.layer_count && self.accepting@.contains(m.state))
        ||| exists|j: int| 0 <= j < self.nodes@.len() && self.nodes@[j] == m && #[trigger] marks[j]
    }

    /// `m` is an accepting node of the last layer, or reaches one by usable arcs.
    spec fn target_good(self, m: Node, idx: int, letter: Letter) -> bool {
        ||| (self.nodes@.contains(m) && m.layer + 1 == self.layer_count && self.accepting@.contains(m.state))
        ||| self.reaches_with(m, idx, letter)
    }

    /// The `j`-th node is kept in the reach set: marked, or accepting in the last layer.
    spec fn kept_mark(self, marks: Seq<bool>, j: int) -> bool {
        marks[j] || (self.nodes@[j].layer + 1 == self.layer_count && self.accepting@.contains(self.nodes@[j].state))
    }

    /// A usable arc into a good target starts at a node that reaches acceptance.
    proof fn lemma_reaches_with_prepend(self, e: Arc, idx: int, letter: Letter)
        requires
            self.structure(),
            self.arcs@.contains(e),
            self.usable_arc(e, idx, letter),
            self.target_good(e.end_spec(), idx, letter),
        ensures
            self.reaches_with(e.start_spec(), idx, letter),
    {
        let n = e.start_spec();
        let i = choose|i: int| 0 <= i < self.arcs@.len() && self.arcs@[i] == e;
        assert(e.start_layer + 1 < self.layer_count);
        if self.reaches_with(e.end_spec(), idx, letter) {
            let r = choose|q: Seq<Arc>| #[trigger] self.graph_suffix(e.end_spec(), q) && q.len() > 0
                && forall|k: int| 0 <= k < q.len() ==> self.usable_arc(#[trigger] q[k], idx, letter);
            let q = seq![e] + r;
            assert forall|k: int| 0 <= k < q.len() implies (#[trigger] q[k]).start_layer == n.layer + k
                && self.arcs@.contains(q[k]) && self.usable_arc(q[k], idx, letter) by {
                if k > 0 {
                    assert(q[k] == r[k - 1]);
                }
            }
            assert forall|k: int| 0 <= k < q.len() - 1 implies (#[trigger] q[k]).end_state == q[k + 1].start_state by {
                assert(q[k + 1] == r[k]);
                if k > 0 {
                    assert(q[k] == r[k - 1]);
                }
            }
            assert(q.last() == r.last());
            assert(self.graph_suffix(n, q));
        } else {
            let q = seq![e];
            assert(self.graph_suffix(n, q));
        }
    }

    /// Once no arc waits, every node reaching acceptance by usable arcs is marked.
    #[verifier::rlimit(40)]
    #[verifier::rlimit(30)]
    proof fn lemma_marked_along(self, marks: Seq<bool>, idx: int, letter: Letter, n: Node, q: Seq<Arc>, k: int)
        requires
            self.structure(),
            marks.len() == self.nodes@.len(),
            forall|i: int| 0 <= i < self.arcs@.len() && self.usable_arc(#[trigger] self.arcs@[i], idx, letter)
                && self.target_done(self.arcs@[i].end_spec(), marks)
                ==> exists|j: int| 0 <= j < self.nodes@.len() && self.nodes@[j] == self.arcs@[i].start_spec() && #[trigger] marks[j],
            self.graph_suffix(n, q),
            forall|m: int| 0 <= m < q.len() ==> self.usable_arc(#[trigger] q[m], idx, letter),
            0 <= k < q.len(),
        ensures
            exists|j: int| 0 <= j < self.nodes@.len() && self.nodes@[j] == q[k].start_spec() && #[trigger] marks[j],
        decreases q.len() - k,
    {
        assert(self.arcs@.contains(q[k]));
        let i = choose|i: int| 0 <= i < self.arcs@.len() && self.arcs@[i] == q[k];
        if k == q.len() - 1 {
            assert(self.nodes@.contains(q[k].end_spec()));
            assert(self.target_done(q[k].end_spec(), marks));
        } else {
            self.lemma_marked_along(marks, idx, letter, n, q, k + 1);
            assert(q[k].end_spec() == q[k + 1].start_spec());
            assert(self.target_done(q[k].end_spec(), marks));
        }
    }

    /// The nodes from which a non-empty path of usable arcs (the `variable_index`-th
    /// variable taking `letter`, the others letters still in their domains) reaches
    /// an accepting node of the last layer.
    fn reaches_accepting(&self, variable_index: usize, letter: Letter) -> (r: Vec<Node>)
        requires
            self.structure(),
        ensures
            r@.no_duplicates(),
            forall|n: Node| #[trigger] r@.contains(n) <==> self.target_good(n, variable_index as int, letter),
    {
        let ghost idx = variable_index as int;
        let last = self.layer_count - 1;
        let mut marks: Vec<bool> = Vec::new();
        while marks.len() < self.nodes.len()
            invariant
                marks@.len() <= self.nodes@.len(),
                forall|j: int| 0 <= j < marks@.len() ==> !#[trigger] marks@[j],
            decreases self.nodes@.len() - marks@.len(),
        {
            marks.push(false);
        }
        // Initialise the queue with the arcs entering the accepting nodes of the last layer.
        let mut queue: VecDeque<Arc> = VecDeque::new();
        let mut ai: usize = 0;
        while ai < self.accepting.len()
            invariant
                self.structure(),
                last + 1 == self.layer_count,
                ai <= self.accepting@.len(),
                marks@.len() == self.nodes@.len(),
                forall|j: int| 0 <= j < marks@.len() ==> !#[trigger] marks@[j],
                forall|k: int| 0 <= k < queue@.len() ==> self.arcs@.contains(#[trigger] queue@[k])
                    && self.target_good(queue@[k].end_spec(), idx, letter),
                forall|i: int| 0 <= i < self.arcs@.len() && (#[trigger] self.arcs@[i]).end_spec().layer == last
                    && self.accepting@.take(ai as int).contains(self.arcs@[i].end_state)
                    ==> queue@.contains(self.arcs@[i]),
            decreases self.accepting@.len() - ai,
        {
            let node = Node { layer: last, state: self.accepting[ai] };
            let ghost q0 = queue@;
            let ghost pre = self.accepting@.take(ai as int);
            assert(self.accepting@.take(ai + 1) =~= pre.push(self.accepting@[ai as int]));
            match self.node_index(node) {
                Some(_j) => {
                    let inbound = self.inbound_edges_all(node);
                    let mut k: usize = 0;
                    while k < inbound.len()
                        invariant
                            self.structure(),
                            k <= inbound@.len(),
                            self.nodes@.contains(node),
                            node.layer + 1 == self.layer_count,
                            self.accepting@.contains(node.state),
                            forall|a: Arc| #[trigger] inbound@.contains(a) <==> (self.arcs@.contains(a) && a.end_spec() == node),
                            queue@ == q0 + inbound@.take(k as int),
                        decreases inbound@.len() - k,
                    {
                        queue.push_back(inbound[k]);
                        k = k + 1;
                        assert(queue@ =~= q0 + inbound@.take(k as int));
                    }
                    assert(inbound@.take(inbound@.len() as int) =~= inbound@);
                    proof {
                        assert forall|k2: int| 0 <= k2 < queue@.len() implies self.arcs@.contains(#[trigger] queue@[k2])
                            && self.target_good(queue@[k2].end_spec(), idx, letter) by {
                            if k2 >= q0.len() {
                                assert(queue@[k2] == inbound@[k2 - q0.len()]);
                                assert(inbound@.contains(inbound@[k2 - q0.len()]));
                            } else {
                                assert(queue@[k2] == q0[k2]);
                            }
                        }
                        assert forall|i: int| 0 <= i < self.arcs@.len() && (#[trigger] self.arcs@[i]).end_spec().layer == last
                            && self.accepting@.take(ai + 1).contains(self.arcs@[i].end_state)
                            implies queue@.contains(self.arcs@[i]) by {
                            let x = choose|x: int| 0 <= x < pre.push(self.accepting@[ai as int]).len()
                                && pre.push(self.accepting@[ai as int])[x] == self.arcs@[i].end_state;
                            if x < pre.len() {
                                assert(pre.contains(self.arcs@[i].end_state));
                                assert(q0.contains(self.arcs@[i]));
                                let y = choose|y: int| 0 <= y < q0.len() && q0[y] == self.arcs@[i];
                                assert(queue@[y] == self.arcs@[i]);
                            } else {
                                assert(self.arcs@[i].end_spec() == node);
                                assert(inbound@.contains(self.arcs@[i]));
                                let y = choose|y: int| 0 <= y < inbound@.len() && inbound@[y] == self.arcs@[i];
                                assert(queue@[q0.len() + y] == self.arcs@[i]);
                            }
                        }
                    }
                },
                None => {
                    proof {
                        assert forall|i: int| 0 <= i < self.arcs@.len() && (#[trigger] self.arcs@[i]).end_spec().layer == last
                            && self.accepting@.take(ai + 1).contains(self.arcs@[i].end_state)
                            implies queue@.contains(self.arcs@[i]) by {
                            let x = choose|x: int| 0 <= x < pre.push(self.accepting@[ai as int]).len()
                                && pre.push(self.accepting@[ai as int])[x] == self.arcs@[i].end_state;
                            if x < pre.len() {
                                assert(pre.contains(self.arcs@[i].end_state));
                            } else {
                                assert(self.arcs@[i].end_spec() == node);
                                assert(self.nodes@.contains(self.arcs@[i].end_spec()));
                            }
                        }
                    }
                },
            }
            ai = ai + 1;
        }
        assert(self.accepting@.take(self.accepting@.len() as int) =~= self.accepting@);
        proof {
            lemma_count_true_bound(marks@);
            assert forall|i: int| 0 <= i < self.arcs@.len() && self.usable_arc(#[trigger] self.arcs@[i], idx, letter)
                && self.target_done(self.arcs@[i].end_spec(), marks@)
                implies (exists|j: int| 0 <= j < self.nodes@.len() && self.nodes@[j] == self.arcs@[i].start_spec() && #[trigger] marks@[j])
                    || queue@.contains(self.arcs@[i]) by {
                if exists|j: int| 0 <= j < self.nodes@.len() && self.nodes@[j] == self.arcs@[i].end_spec() && #[trigger] marks@[j] {
                    let j = choose|j: int| 0 <= j < self.nodes@.len() && self.nodes@[j] == self.arcs@[i].end_spec() && #[trigger] marks@[j];
                    assert(!marks@[j]);
                }
            }
        }
        while queue.len() > 0
            invariant
                self.structure(),
                idx == variable_index as int,
                marks@.len() == self.nodes@.len(),
                count_true(marks@) <= marks@.len(),
                forall|j: int| 0 <= j < marks@.len() && #[trigger] marks@[j] ==> self.reaches_with(self.nodes@[j], idx, letter),
                forall|k: int| 0 <= k < queue@.len() ==> self.arcs@.contains(#[trigger] queue@[k])
                    && self.target_good(queue@[k].end_spec(), idx, letter),
                forall|i: int| 0 <= i < self.arcs@.len() && self.usable_arc(#[trigger] self.arcs@[i], idx, letter)
                    && self.target_done(self.arcs@[i].end_spec(), marks@)
                    ==> (exists|j: int| 0 <= j < self.nodes@.len() && self.nodes@[j] == self.arcs@[i].start_spec() && #[trigger] marks@[j])
                        || queue@.contains(self.arcs@[i]),
            decreases marks@.len() - count_true(marks@), queue@.len(),
        {
            let ghost q0 = queue@;
            let ghost m0 = marks@;
            let edge = queue.pop_front().unwrap();
            assert(q0[0] == edge);
            assert(queue@ =~= q0.drop_first());
            assert(self.arcs@.contains(edge));
            let i_edge = self.arc_index(edge);
            assert(self.nodes@.contains(edge.start_spec()));
            let start = edge.start();
            let js = match self.node_index(start) {
                Some(j) => j,
                None => {
                    proof {
                        assert(false);
                    }
                    0
                },
            };
            if marks[js] {
                proof {
                    self.lemma_pop_keeps(m0, q0, idx, letter);
                }
                continue;
            }
            let usable = if edge.start_layer == variable_index {
                edge.letter == letter
            } else {
                self.is_in_domain(edge)
            };
            assert(usable == self.usable_arc(edge, idx, letter));
            if usable {
                proof {
                    self.lemma_reaches_with_prepend(edge, idx, letter);
                    lemma_count_true_update_true(marks@, js as int);
                }
                marks.set(js, true);
                let inbound = self.inbound_edges_all(start);
                let ghost q1 = queue@;
                let mut k: usize = 0;
                while k < inbound.len()
                    invariant
                        self.structure(),
                        k <= inbound@.len(),
                        forall|a: Arc| #[trigger] inbound@.contains(a) <==> (self.arcs@.contains(a) && a.end_spec() == start),
                        queue@ == q1 + inbound@.take(k as int),
                    decreases inbound@.len() - k,
                {
                    queue.push_back(inbound[k]);
                    k = k + 1;
                    assert(queue@ =~= q1 + inbound@.take(k as int));
                }
                assert(inbound@.take(inbound@.len() as int) =~= inbound@);
                proof {
                    lemma_count_true_bound(marks@);
                    self.lemma_after_mark(m0, marks@, q0, queue@, q1, inbound@, edge, js as int, idx, letter);
                }
            } else {
                proof {
                    self.lemma_pop_keeps(m0, q0, idx, letter);
                }
            }
        }
        let mut r: Vec<Node> = Vec::new();
        let mut j: usize = 0;
        while j < self.nodes.len()
            invariant
                self.structure(),
                last + 1 == self.layer_count,
                j <= self.nodes@.len(),
                marks@.len() == self.nodes@.len(),
                r@.no_duplicates(),
                forall|n: Node| #[trigger] r@.contains(n) <==> exists|jj: int| 0 <= jj < j && self.nodes@[jj] == n
                    && #[trigger] self.kept_mark(marks@, jj),
            decreases self.nodes@.len() - j,
        {
            let ghost before = r@;
            let node = self.nodes[j];
            if marks[j] || (node.layer == last && contains_usize(&self.accepting, node.state)) {
                proof {
                    if before.contains(self.nodes@[j as int]) {
                        let jj = choose|jj: int| 0 <= jj < j && self.nodes@[jj] == self.nodes@[j as int]
                            && #[trigger] self.kept_mark(marks@, jj);
                    }
                }
                r.push(node);
            }
            proof {
                assert forall|n: Node| #[trigger] r@.contains(n) <==> exists|jj: int| 0 <= jj < j + 1 && self.nodes@[jj] == n
                    && #[trigger] self.kept_mark(marks@, jj) by {
                    if r@.contains(n) && !before.contains(n) {
                        let y = choose|y: int| 0 <= y < r@.len() && r@[y] == n;
                        assert(y == before.len());
                        assert(self.kept_mark(marks@, j as int));
                    }
                    if before.contains(n) {
                        let y = choose|y: int| 0 <= y < before.len() && before[y] == n;
                        assert(r@[y] == n);
                    }
                    if exists|jj: int| 0 <= jj < j + 1 && self.nodes@[jj] == n && #[trigger] self.kept_mark(marks@, jj) {
                        let jj = choose|jj: int| 0 <= jj < j + 1 && self.nodes@[jj] == n && #[trigger] self.kept_mark(marks@, jj);
                        if jj == j {
                            assert(r@[r@.len() - 1] == n);
                        }
                    }
                }
            }
            j = j + 1;
        }
        proof {
            assert forall|n: Node| self.reaches_with(n, idx, letter) implies #[trigger] r@.contains(n) by {
                let q = choose|q: Seq<Arc>| #[trigger] self.graph_suffix(n, q) && q.len() > 0
                    && forall|k: int| 0 <= k < q.len() ==> self.usable_arc(#[trigger] q[k], idx, letter);
                assert forall|i: int| 0 <= i < self.arcs@.len() && self.usable_arc(#[trigger] self.arcs@[i], idx, letter)
                    && self.target_done(self.arcs@[i].end_spec(), marks@)
                    implies exists|j: int| 0 <= j < self.nodes@.len() && self.nodes@[j] == self.arcs@[i].start_spec() && #[trigger] marks@[j] by {
                }
                self.lemma_marked_along(marks@, idx, letter, n, q, 0);
                let jj = choose|jj: int| 0 <= jj < self.nodes@.len() && self.nodes@[jj] == q[0].start_spec() && #[trigger] marks@[jj];
                assert(q[0].start_spec() == n);
                assert(self.kept_mark(marks@, jj));
            }
            assert forall|n: Node| #[trigger] r@.contains(n) <==> self.target_good(n, idx, letter) by {
                if r@.contains(n) {
                    let jj = choose|jj: int| 0 <= jj < self.nodes@.len() && self.nodes@[jj] == n
                        && #[trigger] self.kept_mark(marks@, jj);
                    if !marks@[jj] {
                        assert(self.nodes@.contains(n));
                    }
                }
                if self.target_good(n, idx, letter) && !self.reaches_with(n, idx, letter) {
                    let jj = choose|jj: int| 0 <= jj < self.nodes@.len() && self.nodes@[jj] == n;
                    assert(self.kept_mark(marks@, jj));
                }
            }
        }
        r
    }

    /// Dropping the front arc keeps the worklist's invariant when that arc is useless or already handled.
    proof fn lemma_pop_keeps(self, marks: Seq<bool>, q0: Seq<Arc>, idx: int, letter: Letter)
        requires
            self.structure(),
            marks.len() == self.nodes@.len(),
            q0.len() > 0,
            forall|i: int| 0 <= i < self.arcs@.len() && self.usable_arc(#[trigger] self.arcs@[i], idx, letter)
                && self.target_done(self.arcs@[i].end_spec(), marks)
                ==> (exists|j: int| 0 <= j < self.nodes@.len() && self.nodes@[j] == self.arcs@[i].start_spec() && #[trigger] marks[j])
                    || q0.contains(self.arcs@[i]),
            !self.usable_arc(q0[0], idx, letter)
                || exists|j: int| 0 <= j < self.nodes@.len() && self.nodes@[j] == q0[0].start_spec() && #[trigger] marks[j],
        ensures
            forall|i: int| 0 <= i < self.arcs@.len() && self.usable_arc(#[trigger] self.arcs@[i], idx, letter)
                && self.target_done(self.arcs@[i].end_spec(), marks)
                ==> (exists|j: int| 0 <= j < self.nodes@.len() && self.nodes@[j] == self.arcs@[i].start_spec() && #[trigger] marks[j])
                    || q0.drop_first().contains(self.arcs@[i]),
    {
        assert forall|i: int| 0 <= i < self.arcs@.len() && self.usable_arc(#[trigger] self.arcs@[i], idx, letter)
            && self.target_done(self.arcs@[i].end_spec(), marks)
            implies (exists|j: int| 0 <= j < self.nodes@.len() && self.nodes@[j] == self.arcs@[i].start_spec() && #[trigger] marks[j])
                || q0.drop_first().contains(self.arcs@[i]) by {
            if q0.contains(self.arcs@[i]) && self.arcs@[i] != q0[0] {
                let y = choose|y: int| 0 <= y < q0.len() && q0[y] == self.arcs@[i];
                assert(q0.drop_first()[y - 1] == self.arcs@[i]);
            }
        }
    }

    /// Marking the start of a usable front arc and queueing its incoming arcs keeps the worklist's invariant.
    #[verifier::rlimit(30)]
    proof fn lemma_after_mark(self, m0: Seq<bool>, m1: Seq<bool>, q0: Seq<Arc>, q2: Seq<Arc>, q1: Seq<Arc>,
        inbound: Seq<Arc>, edge: Arc, js: int, idx: int, letter: Letter)
        requires
            self.structure(),
            m0.len() == self.nodes@.len(),
            0 <= js < m0.len(),
            self.nodes@[js] == edge.start_spec(),
            m1 == m0.update(js, true),
            q0.len() > 0,
            q0[0] == edge,
            q1 == q0.drop_first(),
            q2 == q1 + inbound,
            forall|a: Arc| #[trigger] inbound.contains(a) <==> (self.arcs@.contains(a) && a.end_spec() == edge.start_spec()),
            self.reaches_with(edge.start_spec(), idx, letter),
            forall|j: int| 0 <= j < m0.len() && #[trigger] m0[j] ==> self.reaches_with(self.nodes@[j], idx, letter),
            forall|k: int| 0 <= k < q0.len() ==> self.arcs@.contains(#[trigger] q0[k])
                && self.target_good(q0[k].end_spec(), idx, letter),
            forall|i: int| 0 <= i < self.arcs@.len() && self.usable_arc(#[trigger] self.arcs@[i], idx, letter)
                && self.target_done(self.arcs@[i].end_spec(), m0)
                ==> (exists|j: int| 0 <= j < self.nodes@.len() && self.nodes@[j] == self.arcs@[i].start_spec() && #[trigger] m0[j])
                    || q0.contains(self.arcs@[i]),
        ensures
            forall|j: int| 0 <= j < m1.len() && #[trigger] m1[j] ==> self.reaches_with(self.nodes@[j], idx, letter),
            forall|k: int| 0 <= k < q2.len() ==> self.arcs@.contains(#[trigger] q2[k])
                && self.target_good(q2[k].end_spec(), idx, letter),
            forall|i: int| 0 <= i < self.arcs@.len() && self.usable_arc(#[trigger] self.arcs@[i], idx, letter)
                && self.target_done(self.arcs@[i].end_spec(), m1)
                ==> (exists|j: int| 0 <= j < self.nodes@.len() && self.nodes@[j] == self.arcs@[i].start_spec() && #[trigger] m1[j])
                    || q2.contains(self.arcs@[i]),
    {
        assert forall|k: int| 0 <= k < q2.len() implies self.arcs@.contains(#[trigger] q2[k])
            && self.target_good(q2[k].end_spec(), idx, letter) by {
            if k < q1.len() {
                assert(q2[k] == q0[k + 1]);
            } else {
                assert(q2[k] == inbound[k - q1.len()]);
                assert(inbound.contains(inbound[k - q1.len()]));
            }
        }
        assert forall|i: int| 0 <= i < self.arcs@.len() && self.usable_arc(#[trigger] self.arcs@[i], idx, letter)
            && self.target_done(self.arcs@[i].end_spec(), m1)
            implies (exists|j: int| 0 <= j < self.nodes@.len() && self.nodes@[j] == self.arcs@[i].start_spec() && #[trigger] m1[j])
                || q2.contains(self.arcs@[i]) by {
            let a = self.arcs@[i];
            if a == edge {
                assert(m1[js]);
            } else if a.end_spec() == edge.start_spec() {
                assert(inbound.contains(a));
                let y = choose|y: int| 0 <= y < inbound.len() && inbound[y] == a;
                assert(q2[q1.len() + y] == a);
            } else {
                if exists|j: int| 0 <= j < self.nodes@.len() && self.nodes@[j] == a.end_spec() && #[trigger] m1[j] {
                    let j = choose|j: int| 0 <= j < self.nodes@.len() && self.nodes@[j] == a.end_spec() && #[trigger] m1[j];
                    assert(j != js);
                    assert(m0[j]);
                }
                assert(self.target_done(a.end_spec(), m0));
                if exists|j: int| 0 <= j < self.nodes@.len() && self.nodes@[j] == a.start_spec() && #[trigger] m0[j] {
                    let j = choose|j: int| 0 <= j < self.nodes@.len() && self.nodes@[j] == a.start_spec() && #[trigger] m0[j];
                    assert(m1[j]);
                } else {
                    assert(q0.contains(a));
                    let y = choose|y: int| 0 <= y < q0.len() && q0[y] == a;
                    assert(y != 0);
                    assert(q2[y - 1] == a);
                }
            }
        }
    }

    /// The nodes that reach acceptance by usable arcs.
    pub closed spec fn reach_set(self, idx: int, letter: Letter) -> Set<Node> {
        Set::new(|n: Node| self.target_good(n, idx, letter))
    }

    /// The (variable, letter) pairs of the arcs leaving `f` (away from variable
    /// `idx`) that enter a node of `r`.
    pub closed spec fn pairs_from(self, f: Set<Node>, idx: int, r: Set<Node>) -> Set<(usize, Letter)> {
        Set::new(|pr: (usize, Letter)| exists|i: int| 0 <= i < self.arcs@.len() && f.contains(self.arcs@[i].start_spec())
            && self.arcs@[i].start_layer != idx && r.contains(self.arcs@[i].end_spec())
            && pr == (#[trigger] self.arcs@[i]).pair())
    }

    /// The nodes entered by arcs leaving `f` that carry `letter` at variable `idx`,
    /// or elsewhere carry a letter not in `ex`.
    pub closed spec fn next_from(self, f: Set<Node>, idx: int, letter: Letter, ex: Set<(usize, Letter)>) -> Set<Node> {
        Set::new(|n: Node| exists|i: int| 0 <= i < self.arcs@.len() && f.contains(self.arcs@[i].start_spec())
            && (#[trigger] self.arcs@[i]).end_spec() == n && self.passes(self.arcs@[i], idx, letter, ex))
    }

    /// `edges[m]` passes and enters `n`.
    spec fn enters(self, edges: Seq<Arc>, m: int, idx: int, letter: Letter, ex: Set<(usize, Letter)>, n: Node) -> bool {
        0 <= m < edges.len() && edges[m].end_spec() == n && self.passes(edges[m], idx, letter, ex)
    }

    /// One of the first `k` of `edges` passes and enters `n`.
    spec fn entered(self, edges: Seq<Arc>, k: int, idx: int, letter: Letter, ex: Set<(usize, Letter)>, n: Node) -> bool {
        exists|m: int| 0 <= m < k && #[trigger] self.enters(edges, m, idx, letter, ex, n)
    }

    pub closed spec fn passes(self, e: Arc, idx: int, letter: Letter, ex: Set<(usize, Letter)>) -> bool {
        (e.start_layer == idx && e.letter == letter) || (e.start_layer != idx && !ex.contains(e.pair()))
    }

    /// The frontier and the pairs gathered after `l` rounds of the explanation search.
    pub closed spec fn explain_state(self, idx: int, letter: Letter, l: nat) -> (Set<Node>, Set<(usize, Letter)>)
        decreases l,
    {
        if l == 0 {
            (set![Node { layer: 0, state: self.starting }], Set::empty())
        } else {
            let (f, ex) = self.explain_state(idx, letter, (l - 1) as nat);
            let ex2 = ex.union(self.pairs_from(f, idx, self.reach_set(idx, letter)));
            (self.next_from(f, idx, letter, ex2), ex2)
        }
    }

    /// The explanation of removing `letter` from the `idx`-th variable.
    pub closed spec fn explanation(self, idx: int, letter: Letter) -> Set<(usize, Letter)> {
        self.explain_state(idx, letter, self.layer_count as nat).1
    }

    /// `p` leads by arcs of the graph from the starting node of the first layer
    /// to `n`, carrying `letter` at the `idx`-th variable if it passes it.
    spec fn start_prefix(self, p: Seq<Arc>, n: Node, idx: int, letter: Letter) -> bool {
        &&& p.len() == n.layer
        &&& forall|k: int| 0 <= k < p.len() ==> (#[trigger] p[k]).start_layer == k
        &&& forall|k: int| 0 <= k < p.len() ==> self.arcs@.contains(#[trigger] p[k])
        &&& p.len() > 0 ==> p[0].start_state == self.starting
        &&& forall|k: int| 0 <= k < p.len() - 1 ==> (#[trigger] p[k]).end_state == p[k + 1].start_state
        &&& self.path_state(p, p.len() as int) == n.state
        &&& (0 <= idx < p.len() ==> p[idx].letter == letter)
    }

    /// Every node the explanation search stands on after `l` rounds is reached
    /// from the start by arcs of the graph carrying `letter` at the `idx`-th variable.
    proof fn lemma_frontier_prefix(self, idx: int, letter: Letter, l: nat)
        requires
            self.structure(),
        ensures
            forall|x: Node| #[trigger] self.explain_state(idx, letter, l).0.contains(x) ==>
                exists|p: Seq<Arc>| #[trigger] self.start_prefix(p, x, idx, letter),
        decreases l,
    {
        if l == 0 {
            assert forall|x: Node| #[trigger] self.explain_state(idx, letter, l).0.contains(x) implies
                exists|p: Seq<Arc>| #[trigger] self.start_prefix(p, x, idx, letter) by {
                assert(self.start_prefix(Seq::<Arc>::empty(), x, idx, letter));
            }
        } else {
            self.lemma_frontier_prefix(idx, letter, (l - 1) as nat);
            let (f, ex) = self.explain_state(idx, letter, (l - 1) as nat);
            let ex2 = ex.union(self.pairs_from(f, idx, self.reach_set(idx, letter)));
            assert forall|x: Node| #[trigger] self.explain_state(idx, letter, l).0.contains(x) implies
                exists|p: Seq<Arc>| #[trigger] self.start_prefix(p, x, idx, letter) by {
                assert(self.next_from(f, idx, letter, ex2).contains(x));
                let i = choose|i: int| 0 <= i < self.arcs@.len() && f.contains(self.arcs@[i].start_spec())
                    && (#[trigger] self.arcs@[i]).end_spec() == x && self.passes(self.arcs@[i], idx, letter, ex2);
                let e = self.arcs@[i];
                assert(e.start_layer + 1 < self.layer_count);
                let y = e.start_spec();
                let py = choose|p: Seq<Arc>| #[trigger] self.start_prefix(p, y, idx, letter);
                let p = py.push(e);
                assert(p[py.len() as int] == e);
                assert forall|k: int| 0 <= k < p.len() implies (#[trigger] p[k]).start_layer == k && self.arcs@.contains(p[k]) by {
                    if k < py.len() {
                        assert(p[k] == py[k]);
                    }
                }
                assert forall|k: int| 0 <= k < p.len() - 1 implies (#[trigger] p[k]).end_state == p[k + 1].start_state by {
                    assert(p[k] == py[k]);
                    if k + 1 < py.len() {
                        assert(p[k + 1] == py[k + 1]);
                    }
                }
                if py.len() > 0 {
                    assert(p[0] == py[0]);
                }
                if 0 <= idx < py.len() {
                    assert(p[idx] == py[idx]);
                }
                assert(self.start_prefix(p, x, idx, letter));
            }
        }
    }

    /// A path from the start to the arc `e`, then `e`, then a suffix of usable
    /// arcs into acceptance, is a full path that carries `letter` at the `idx`-th
    /// variable and, after `e`, letters still in their domains but there.
    proof fn lemma_join_path(self, idx: int, letter: Letter, py: Seq<Arc>, e: Arc, q: Seq<Arc>)
        requires
            self.structure(),
            0 <= idx < self.layer_count - 1,
            self.arcs@.contains(e),
            e.start_layer != idx,
            self.start_prefix(py, e.start_spec(), idx, letter),
            self.graph_suffix(e.end_spec(), q),
            forall|k: int| 0 <= k < q.len() ==> self.usable_arc(#[trigger] q[k], idx, letter),
        ensures
            self.is_full_path((py.push(e)) + q),
            ((py.push(e)) + q)[e.start_layer as int] == e,
            ((py.push(e)) + q)[idx].letter == letter,
            forall|j: int| e.start_layer < j < ((py.push(e)) + q).len() && j != idx ==>
                #[trigger] self.domain_of(j).contains(((py.push(e)) + q)[j].letter),
    {
        let i = choose|i: int| 0 <= i < self.arcs@.len() && self.arcs@[i] == e;
        assert(e.start_layer + 1 < self.layer_count);
        let a = py.push(e);
        let p = a + q;
        let m = e.start_layer as int;
        assert(a[m] == e);
        assert forall|k: int| 0 <= k < p.len() implies (#[trigger] p[k]).start_layer == k && self.arcs@.contains(p[k]) by {
            if k < m {
                assert(p[k] == py[k]);
            } else if k == m {
                assert(p[k] == e);
            } else {
                assert(p[k] == q[k - m - 1]);
            }
        }
        assert forall|k: int| 0 <= k < p.len() - 1 implies (#[trigger] p[k]).end_state == p[k + 1].start_state by {
            if k < m - 1 {
                assert(p[k] == py[k] && p[k + 1] == py[k + 1]);
            } else if k == m - 1 {
                assert(p[k] == py[k] && p[k + 1] == e);
            } else if k == m {
                assert(p[k] == e && p[k + 1] == q[0]);
            } else {
                assert(p[k] == q[k - m - 1] && p[k + 1] == q[k - m]);
            }
        }
        if p.len() > 0 {
            if m > 0 {
                assert(p[0] == py[0]);
            } else {
                assert(p[0] == e);
            }
        }
        if q.len() > 0 {
            assert(p[p.len() - 1] == q.last());
        } else {
            assert(p[p.len() - 1] == e);
        }
        assert(self.is_full_path(p));
        if idx < m {
            assert(p[idx] == py[idx]);
        } else {
            assert(p[idx] == q[idx - m - 1]);
            assert(self.usable_arc(q[idx - m - 1], idx, letter));
        }
        assert forall|j: int| m < j < p.len() && j != idx implies #[trigger] self.domain_of(j).contains(p[j].letter) by {
            assert(p[j] == q[j - m - 1]);
            assert(self.usable_arc(q[j - m - 1], idx, letter));
        }
    }

    /// Every pair gathered after `l` rounds of the explanation search is that
    /// of an arc, off the `idx`-th variable, on a full path that carries
    /// `letter` at that variable and, after the arc, letters still in their
    /// domains but there.
    proof fn lemma_explain_pairs_on_paths(self, idx: int, letter: Letter, l: nat)
        requires
            self.structure(),
            0 <= idx < self.layer_count - 1,
        ensures
            forall|pr: (usize, Letter)| #[trigger] self.explain_state(idx, letter, l).1.contains(pr) ==>
                exists|p: Seq<Arc>, k: int| #![trigger self.is_full_path(p), p[k]] self.is_full_path(p) && 0 <= k < p.len()
                    && k != idx && p[k].pair() == pr && p[idx].letter == letter
                    && forall|j: int| k < j < p.len() && j != idx ==> #[trigger] self.domain_of(j).contains(p[j].letter),
        decreases l,
    {
        if l > 0 {
            self.lemma_explain_pairs_on_paths(idx, letter, (l - 1) as nat);
            self.lemma_frontier_prefix(idx, letter, (l - 1) as nat);
            let (f, ex) = self.explain_state(idx, letter, (l - 1) as nat);
            let r = self.reach_set(idx, letter);
            assert forall|pr: (usize, Letter)| #[trigger] self.explain_state(idx, letter, l).1.contains(pr) implies
                exists|p: Seq<Arc>, k: int| #![trigger self.is_full_path(p), p[k]] self.is_full_path(p) && 0 <= k < p.len()
                    && k != idx && p[k].pair() == pr && p[idx].letter == letter
                    && forall|j: int| k < j < p.len() && j != idx ==> #[trigger] self.domain_of(j).contains(p[j].letter) by {
                if !ex.contains(pr) {
                    assert(self.pairs_from(f, idx, r).contains(pr));
                    let i = choose|i: int| 0 <= i < self.arcs@.len() && f.contains(self.arcs@[i].start_spec())
                        && self.arcs@[i].start_layer != idx && r.contains(self.arcs@[i].end_spec())
                        && pr == (#[trigger] self.arcs@[i]).pair();
                    let e = self.arcs@[i];
                    assert(e.start_layer + 1 < self.layer_count);
                    let py = choose|p: Seq<Arc>| #[trigger] self.start_prefix(p, e.start_spec(), idx, letter);
                    assert(self.target_good(e.end_spec(), idx, letter));
                    let q = if self.reaches_with(e.end_spec(), idx, letter) {
                        choose|q: Seq<Arc>| #[trigger] self.graph_suffix(e.end_spec(), q) && q.len() > 0
                            && forall|k: int| 0 <= k < q.len() ==> self.usable_arc(#[trigger] q[k], idx, letter)
                    } else {
                        Seq::<Arc>::empty()
                    };
                    assert(self.graph_suffix(e.end_spec(), q));
                    self.lemma_join_path(idx, letter, py, e, q);
                    let p = (py.push(e)) + q;
                    let k = e.start_layer as int;
                    assert(self.is_full_path(p) && 0 <= k < p.len() && k != idx && p[k].pair() == pr && p[idx].letter == letter);
                }
            }
        }
    }

    /// Each pair of the explanation of removing `letter` from the `idx`-th
    /// variable is that of an arc, off that variable, on a full path of the
    /// graph that carries `letter` at that variable and, after the arc, at every
    /// other variable a letter still in its domain.
    pub proof fn lemma_explanation_on_paths(self, idx: int, letter: Letter)
        requires
            self.wf(),
            0 <= idx < self.layers() - 1,
        ensures
            forall|pr: (usize, Letter)| #[trigger] self.explanation(idx, letter).contains(pr) ==>
                exists|p: Seq<Arc>, k: int| #![trigger self.is_full_path(p), p[k]] self.is_full_path(p) && 0 <= k < p.len()
                    && k != idx && p[k].pair() == pr && p[idx].letter == letter
                    && forall|j: int| k < j < p.len() && j != idx ==> #[trigger] self.domain_of(j).contains(p[j].letter),
    {
        self.lemma_explain_pairs_on_paths(idx, letter, self.layer_count as nat);
    }

    /// When no full path of the graph carries `letter` at the `idx`-th variable,
    /// removing it needs no explanation.
    pub proof fn lemma_explanation_empty_without_path(self, idx: int, letter: Letter)
        requires
            self.wf(),
            0 <= idx < self.layers() - 1,
            !exists|p: Seq<Arc>| #[trigger] self.is_full_path(p) && p[idx].letter == letter,
        ensures
            self.explanation(idx, letter) == Set::<(usize, Letter)>::empty(),
    {
        self.lemma_explanation_on_paths(idx, letter);
        assert forall|pr: (usize, Letter)| !self.explanation(idx, letter).contains(pr) by {
            if self.explanation(idx, letter).contains(pr) {
                let (p, k) = choose|p: Seq<Arc>, k: int| #![trigger self.is_full_path(p), p[k]] self.is_full_path(p) && 0 <= k < p.len()
                    && k != idx && p[k].pair() == pr && p[idx].letter == letter
                    && forall|j: int| k < j < p.len() && j != idx ==> #[trigger] self.domain_of(j).contains(p[j].letter);
                assert(self.is_full_path(p) && p[idx].letter == letter);
            }
        }
        assert(self.explanation(idx, letter) =~= Set::<(usize, Letter)>::empty());
    }

    /// Two graphs of one shape whose domains agree search alike after `l` rounds.
    proof fn lemma_explain_state_congruent(self, other: LayeredGraph, idx: int, letter: Letter, l: nat)
        requires
            self.structure(),
            self.same_shape(other),
            self.reach_set(idx, letter) == other.reach_set(idx, letter),
        ensures
            self.explain_state(idx, letter, l) == other.explain_state(idx, letter, l),
        decreases l,
    {
        if l > 0 {
            self.lemma_explain_state_congruent(other, idx, letter, (l - 1) as nat);
            let (f, ex) = self.explain_state(idx, letter, (l - 1) as nat);
            let r = self.reach_set(idx, letter);
            assert(self.pairs_from(f, idx, r) =~= other.pairs_from(f, idx, r));
            let ex2 = ex.union(self.pairs_from(f, idx, r));
            assert(self.next_from(f, idx, letter, ex2) =~= other.next_from(f, idx, letter, ex2));
        }
    }

    /// Some full path carries `letter` at the `idx`-th variable and, at every
    /// other variable, a letter still in its domain.
    pub open spec fn possible_with(self, idx: int, letter: Letter) -> bool {
        exists|p: Seq<Arc>| #[trigger] self.is_full_path(p) && idx < p.len() && p[idx].letter == letter
            && forall|j: int| 0 <= j < p.len() && j != idx ==> #[trigger] self.domain_of(j).contains(p[j].letter)
    }

    /// No frontier node of the explanation search can reach acceptance.
    proof fn lemma_frontier_hopeless(self, idx: int, letter: Letter, l: nat)
        requires
            self.structure(),
            0 <= idx < self.layer_count - 1,
            !self.possible_with(idx, letter),
        ensures
            forall|x: Node| #[trigger] self.explain_state(idx, letter, l).0.contains(x) ==> !self.target_good(x, idx, letter),
        decreases l,
    {
        if l == 0 {
            let st = Node { layer: 0, state: self.starting };
            assert forall|x: Node| #[trigger] self.explain_state(idx, letter, l).0.contains(x)
                implies !self.target_good(x, idx, letter) by {
                assert(x == st);
                if self.reaches_with(x, idx, letter) {
                    let q = choose|q: Seq<Arc>| #[trigger] self.graph_suffix(x, q) && q.len() > 0
                        && forall|k: int| 0 <= k < q.len() ==> self.usable_arc(#[trigger] q[k], idx, letter);
                    assert(self.is_full_path(q));
                    assert forall|j: int| 0 <= j < q.len() && j != idx implies #[trigger] self.domain_of(j).contains(q[j].letter) by {
                        assert(self.usable_arc(q[j], idx, letter));
                        assert(self.domain@[j]@.contains(q[j].letter));
                    }
                    assert(self.usable_arc(q[idx], idx, letter));
                    assert(self.possible_with(idx, letter));
                }
            }
        } else {
            self.lemma_frontier_hopeless(idx, letter, (l - 1) as nat);
            let (f, ex) = self.explain_state(idx, letter, (l - 1) as nat);
            let r = self.reach_set(idx, letter);
            let ex2 = ex.union(self.pairs_from(f, idx, r));
            assert forall|x: Node| #[trigger] self.explain_state(idx, letter, l).0.contains(x)
                implies !self.target_good(x, idx, letter) by {
                assert(self.next_from(f, idx, letter, ex2).contains(x));
                let i = choose|i: int| 0 <= i < self.arcs@.len() && f.contains(self.arcs@[i].start_spec())
                    && (#[trigger] self.arcs@[i]).end_spec() == x && self.passes(self.arcs@[i], idx, letter, ex2);
                let e = self.arcs@[i];
                if self.target_good(x, idx, letter) {
                    if e.start_layer == idx {
                        self.lemma_reaches_with_prepend(e, idx, letter);
                        assert(self.target_good(e.start_spec(), idx, letter));
                    } else {
                        assert(r.contains(e.end_spec()));
                        assert(self.pairs_from(f, idx, r).contains(e.pair()));
                    }
                }
            }
        }
    }

    /// The pairs gathered after `l` rounds are among those gathered after `m`.
    proof fn lemma_explain_grows(self, idx: int, letter: Letter, l: nat, m: nat)
        requires
            l <= m,
        ensures
            self.explain_state(idx, letter, l).1.subset_of(self.explain_state(idx, letter, m).1),
        decreases m - l,
    {
        if l < m {
            self.lemma_explain_grows(idx, letter, l, (m - 1) as nat);
        }
    }

    /// Every pair gathered after `l` rounds names another variable, and a letter
    /// that variable's domain no longer holds.
    proof fn lemma_explain_pairs_removed(self, idx: int, letter: Letter, l: nat)
        requires
            self.structure(),
            0 <= idx < self.layer_count - 1,
            !self.possible_with(idx, letter),
        ensures
            forall|pr: (usize, Letter)| #[trigger] self.explain_state(idx, letter, l).1.contains(pr) ==>
                pr.0 != idx && pr.0 + 1 < self.layer_count && !self.domain_of(pr.0 as int).contains(pr.1)
                && exists|a: Arc| #[trigger] self.has_arc(a) && a.pair() == pr,
        decreases l,
    {
        if l > 0 {
            self.lemma_explain_pairs_removed(idx, letter, (l - 1) as nat);
            self.lemma_frontier_hopeless(idx, letter, (l - 1) as nat);
            let (f, ex) = self.explain_state(idx, letter, (l - 1) as nat);
            let r = self.reach_set(idx, letter);
            assert forall|pr: (usize, Letter)| #[trigger] self.pairs_from(f, idx, r).contains(pr) implies
                pr.0 != idx && pr.0 + 1 < self.layer_count && !self.domain_of(pr.0 as int).contains(pr.1)
                && exists|a: Arc| #[trigger] self.has_arc(a) && a.pair() == pr by {
                let i = choose|i: int| 0 <= i < self.arcs@.len() && f.contains(self.arcs@[i].start_spec())
                    && self.arcs@[i].start_layer != idx && r.contains(self.arcs@[i].end_spec())
                    && pr == (#[trigger] self.arcs@[i]).pair();
                let e = self.arcs@[i];
                assert(e.start_layer + 1 < self.layer_count);
                assert(self.has_arc(e));
                if self.domain_of(pr.0 as int).contains(pr.1) {
                    assert(self.domain@[e.start_layer as int]@.contains(e.letter));
                    self.lemma_reaches_with_prepend(e, idx, letter);
                    assert(self.target_good(e.start_spec(), idx, letter));
                }
            }
        }
    }

    /// A full path with `letter` at the `idx`-th variable whose other pairs stay
    /// out of the explanation passes the frontier of every round.
    proof fn lemma_path_in_frontier(self, idx: int, letter: Letter, p: Seq<Arc>, l: nat)
        requires
            self.structure(),
            self.is_full_path(p),
            0 <= idx < p.len(),
            p[idx].letter == letter,
            forall|j: int| 0 <= j < p.len() && j != idx ==>
                !self.explanation(idx, letter).contains(#[trigger] p[j].pair()),
            l <= p.len(),
        ensures
            self.explain_state(idx, letter, l).0.contains(Node { layer: l as usize, state: self.path_state(p, l as int) }),
        decreases l,
    {
        if l > 0 {
            let k = (l - 1) as nat;
            self.lemma_path_in_frontier(idx, letter, p, k);
            let (f, ex) = self.explain_state(idx, letter, k);
            let ex2 = ex.union(self.pairs_from(f, idx, self.reach_set(idx, letter)));
            let e = p[k as int];
            assert(self.arcs@.contains(e));
            let i = choose|i: int| 0 <= i < self.arcs@.len() && self.arcs@[i] == e;
            assert(e.start_spec() == Node { layer: k as usize, state: self.path_state(p, k as int) });
            if k != idx {
                self.lemma_explain_grows(idx, letter, l, self.layer_count as nat);
                assert(!ex2.contains(e.pair()));
            }
            assert(self.passes(e, idx, letter, ex2));
            assert(e.end_spec() == Node { layer: l as usize, state: self.path_state(p, l as int) });
            assert(self.next_from(f, idx, letter, ex2).contains(e.end_spec()));
        }
    }

    /// When `letter` lies at the `idx`-th variable on no full path whose other
    /// letters are still in their domains, its explanation justifies its removal:
    /// every pair of the explanation is a value another variable no longer holds,
    /// and every full path with `letter` at that variable passes through one of them.
    pub proof fn lemma_explanation_sound(self, idx: int, letter: Letter)
        requires
            self.wf(),
            0 <= idx < self.layers() - 1,
            !self.possible_with(idx, letter),
        ensures
            forall|pr: (usize, Letter)| #[trigger] self.explanation(idx, letter).contains(pr) ==>
                pr.0 != idx && pr.0 + 1 < self.layers() && !self.domain_of(pr.0 as int).contains(pr.1)
                && exists|a: Arc| #[trigger] self.has_arc(a) && a.pair() == pr,
            forall|p: Seq<Arc>| #[trigger] self.is_full_path(p) && p[idx].letter == letter ==>
                exists|j: int| 0 <= j < p.len() && j != idx && self.explanation(idx, letter).contains((j as usize, #[trigger] p[j].letter)),
    {
        self.lemma_explain_pairs_removed(idx, letter, self.layer_count as nat);
        assert forall|p: Seq<Arc>| #[trigger] self.is_full_path(p) && p[idx].letter == letter implies
            exists|j: int| 0 <= j < p.len() && j != idx && self.explanation(idx, letter).contains((j as usize, #[trigger] p[j].letter)) by {
            if !exists|j: int| 0 <= j < p.len() && j != idx && self.explanation(idx, letter).contains((j as usize, #[trigger] p[j].letter)) {
                let n = p.len() as nat;
                assert forall|j: int| 0 <= j < p.len() && j != idx implies
                    !self.explanation(idx, letter).contains(#[trigger] p[j].pair()) by {
                    assert(p[j].start_layer == j);
                    if self.explanation(idx, letter).contains(p[j].pair()) {
                        assert(self.explanation(idx, letter).contains((j as usize, p[j].letter)));
                    }
                }
                self.lemma_path_in_frontier(idx, letter, p, n);
                self.lemma_frontier_hopeless(idx, letter, n);
                let x = Node { layer: n as usize, state: self.path_state(p, n as int) };
                let e = p[n - 1];
                assert(self.arcs@.contains(e));
                let i = choose|i: int| 0 <= i < self.arcs@.len() && self.arcs@[i] == e;
                assert(e.end_spec() == x);
                assert(self.nodes@.contains(x));
                assert(self.target_good(x, idx, letter));
            }
        }
    }

    /// The explanation depends on the arcs, the starting and accepting states and
    /// the domains only, not on which arcs and nodes are alive.
    pub proof fn lemma_explanation_congruent(self, other: LayeredGraph, idx: int, letter: Letter)
        requires
            self.wf(),
            self.same_shape(other),
            forall|j: int, v: Letter| 0 <= j < self.layers() - 1 ==>
                (#[trigger] self.domain_of(j).contains(v) <==> other.domain_of(j).contains(v)),
        ensures
            self.explanation(idx, letter) == other.explanation(idx, letter),
    {
        assert forall|e: Arc| #[trigger] self.arcs@.contains(e) implies
            self.usable_arc(e, idx, letter) == other.usable_arc(e, idx, letter) by {
            let i = choose|i: int| 0 <= i < self.arcs@.len() && self.arcs@[i] == e;
            assert(self.arcs@[i].start_layer + 1 < self.layer_count);
            if e.start_layer != idx {
                let j = e.start_layer as int;
                assert(self.domain_of(j).contains(e.letter) <==> other.domain_of(j).contains(e.letter));
                assert(self.domain_of(j).contains(e.letter) <==> self.domain@[j]@.contains(e.letter));
                assert(other.domain_of(j).contains(e.letter) <==> other.domain@[j]@.contains(e.letter));
            }
        }
        assert forall|n: Node| self.reaches_with(n, idx, letter) == other.reaches_with(n, idx, letter) by {
            if self.reaches_with(n, idx, letter) {
                let q = choose|q: Seq<Arc>| #[trigger] self.graph_suffix(n, q) && q.len() > 0
                    && forall|k: int| 0 <= k < q.len() ==> self.usable_arc(#[trigger] q[k], idx, letter);
                assert(other.graph_suffix(n, q));
                assert forall|k: int| 0 <= k < q.len() implies other.usable_arc(#[trigger] q[k], idx, letter) by {
                    assert(self.arcs@.contains(q[k]));
                }
            }
            if other.reaches_with(n, idx, letter) {
                let q = choose|q: Seq<Arc>| #[trigger] other.graph_suffix(n, q) && q.len() > 0
                    && forall|k: int| 0 <= k < q.len() ==> other.usable_arc(#[trigger] q[k], idx, letter);
                assert(self.graph_suffix(n, q));
                assert forall|k: int| 0 <= k < q.len() implies self.usable_arc(#[trigger] q[k], idx, letter) by {
                    assert(self.arcs@.contains(q[k]));
                }
            }
        }
        assert forall|n: Node| self.target_good(n, idx, letter) == other.target_good(n, idx, letter) by {
            assert(self.reaches_with(n, idx, letter) == other.reaches_with(n, idx, letter));
        }
        assert(self.reach_set(idx, letter) =~= other.reach_set(idx, letter));
        self.lemma_explain_state_congruent(other, idx, letter, self.layer_count as nat);
    }

    /// The frontier after `l` rounds lies in layer `l`; past the last layer it is empty,
    /// and once empty the gathered pairs stay the same.
    proof fn lemma_explain_state(self, idx: int, letter: Letter, l: nat)
        requires
            self.structure(),
        ensures
            forall|n: Node| #[trigger] self.explain_state(idx, letter, l).0.contains(n) ==> n.layer == l,
            l >= self.layer_count ==> self.explain_state(idx, letter, l).0 =~= Set::<Node>::empty(),
        decreases l,
    {
        if l > 0 {
            self.lemma_explain_state(idx, letter, (l - 1) as nat);
            let (f, ex) = self.explain_state(idx, letter, (l - 1) as nat);
            let ex2 = ex.union(self.pairs_from(f, idx, self.reach_set(idx, letter)));
            assert forall|n: Node| #[trigger] self.next_from(f, idx, letter, ex2).contains(n) implies n.layer == l
                && l < self.layer_count by {
                let i = choose|i: int| 0 <= i < self.arcs@.len() && f.contains(self.arcs@[i].start_spec())
                    && (#[trigger] self.arcs@[i]).end_spec() == n && self.passes(self.arcs@[i], idx, letter, ex2);
                assert(self.arcs@[i].start_layer + 1 < self.layer_count);
            }
        }
    }

    /// Once the frontier is empty the gathered pairs no longer change.
    proof fn lemma_explain_settled(self, idx: int, letter: Letter, l: nat, m: nat)
        requires
            l <= m,
            self.explain_state(idx, letter, l).0 =~= Set::<Node>::empty(),
        ensures
            self.explain_state(idx, letter, m).1 == self.explain_state(idx, letter, l).1,
            self.explain_state(idx, letter, m).0 =~= Set::<Node>::empty(),
        decreases m - l,
    {
        if l < m {
            let (f, ex) = self.explain_state(idx, letter, l);
            let r = self.reach_set(idx, letter);
            assert(self.pairs_from(f, idx, r) =~= Set::<(usize, Letter)>::empty());
            assert(ex.union(self.pairs_from(f, idx, r)) =~= ex);
            let ex2 = ex.union(self.pairs_from(f, idx, r));
            assert(self.next_from(f, idx, letter, ex2) =~= Set::<Node>::empty());
            self.lemma_explain_settled(idx, letter, l + 1, m);
        }
    }

    /// Gathers into `explanation` the pairs of the arcs leaving `frontier` (away from
    /// variable `idx`) that enter a node of `reach`.
    fn gather_pairs(&self, frontier: &Vec<Node>, variable_index: usize, reach: &Vec<Node>,
        explanation: &mut Vec<(usize, Letter)>)
        requires
            self.structure(),
            old(explanation)@.no_duplicates(),
        ensures
            final(explanation)@.no_duplicates(),
            final(explanation)@.to_set() == old(explanation)@.to_set().union(
                self.pairs_from(frontier@.to_set(), variable_index as int, reach@.to_set())),
    {
        let ghost ex0 = explanation@.to_set();
        let ghost r = reach@.to_set();
        let ghost idx = variable_index as int;
        let mut qi: usize = 0;
        while qi < frontier.len()
            invariant
                self.structure(),
                idx == variable_index as int,
                r == reach@.to_set(),
                qi <= frontier@.len(),
                explanation@.no_duplicates(),
                explanation@.to_set() == ex0.union(self.pairs_from(frontier@.take(qi as int).to_set(), idx, r)),
            decreases frontier@.len() - qi,
        {
            let node = frontier[qi];
            let edges = self.outbound_edges_all(node);
            let ghost ex1 = explanation@.to_set();
            let mut k: usize = 0;
            while k < edges.len()
                invariant
                    self.structure(),
                    idx == variable_index as int,
                    r == reach@.to_set(),
                    k <= edges@.len(),
                    forall|a: Arc| #[trigger] edges@.contains(a) <==> (self.arcs@.contains(a) && a.start_spec() == node),
                    explanation@.no_duplicates(),
                    explanation@.to_set() == ex1.union(Set::new(|pr: (usize, Letter)| gathered(edges@, k as int, idx, r, pr))),
                decreases edges@.len() - k,
            {
                let edge = edges[k];
                assert(edges@[k as int] == edge);
                assert(edges@.contains(edge));
                let ghost before = explanation@;
                if edge.start_layer != variable_index && contains_node(reach, edge.end()) {
                    push_new_pair(explanation, (edge.start_layer, edge.letter));
                }
                proof {
                    assert forall|pr: (usize, Letter)| #[trigger] gathered(edges@, k + 1, idx, r, pr) <==>
                        (gathered(edges@, k as int, idx, r, pr) || edges_pair_witness(edges@, k as int, idx, r, pr)) by {
                        if gathered(edges@, k + 1, idx, r, pr) {
                            let m = choose|m: int| 0 <= m < k + 1 && #[trigger] edges_pair_witness(edges@, m, idx, r, pr);
                            if m < k {
                                assert(gathered(edges@, k as int, idx, r, pr));
                            }
                        }
                        if gathered(edges@, k as int, idx, r, pr) {
                            let m = choose|m: int| 0 <= m < k && #[trigger] edges_pair_witness(edges@, m, idx, r, pr);
                            assert(0 <= m < k + 1 && edges_pair_witness(edges@, m, idx, r, pr));
                        }
                        if edges_pair_witness(edges@, k as int, idx, r, pr) {
                            assert(0 <= k < k + 1 && edges_pair_witness(edges@, k as int, idx, r, pr));
                        }
                    }
                    assert(edges@[k as int] == edge);
                    assert(explanation@.to_set() =~= ex1.union(Set::new(|pr: (usize, Letter)| gathered(edges@, k + 1, idx, r, pr))));
                }
                k = k + 1;
            }
            proof {
                let f0 = frontier@.take(qi as int).to_set();
                let f1 = frontier@.take(qi + 1).to_set();
                assert(frontier@.take(qi + 1) =~= frontier@.take(qi as int).push(node));
                frontier@.take(qi as int).lemma_push_to_set_commute(node);
                assert(f1 =~= f0.insert(node));
                let edge_pairs = Set::new(|pr: (usize, Letter)| gathered(edges@, edges@.len() as int, idx, r, pr));
                assert(self.pairs_from(f1, idx, r) =~= self.pairs_from(f0, idx, r).union(edge_pairs)) by {
                    assert forall|pr: (usize, Letter)| self.pairs_from(f1, idx, r).contains(pr) implies
                        self.pairs_from(f0, idx, r).contains(pr) || edge_pairs.contains(pr) by {
                        let i = choose|i: int| 0 <= i < self.arcs@.len() && f1.contains(self.arcs@[i].start_spec())
                            && self.arcs@[i].start_layer != idx && r.contains(self.arcs@[i].end_spec())
                            && pr == (#[trigger] self.arcs@[i]).pair();
                        if !f0.contains(self.arcs@[i].start_spec()) {
                            assert(edges@.contains(self.arcs@[i]));
                            let m = choose|m: int| 0 <= m < edges@.len() && edges@[m] == self.arcs@[i];
                            assert(edges_pair_witness(edges@, m, idx, r, pr));
                            assert(gathered(edges@, edges@.len() as int, idx, r, pr));
                        }
                    }
                    assert forall|pr: (usize, Letter)| edge_pairs.contains(pr) implies self.pairs_from(f1, idx, r).contains(pr) by {
                        let m = choose|m: int| 0 <= m < edges@.len() && #[trigger] edges_pair_witness(edges@, m, idx, r, pr);
                        assert(edges@.contains(edges@[m]));
                        let i = choose|i: int| 0 <= i < self.arcs@.len() && self.arcs@[i] == edges@[m];
                        assert(f1.contains(self.arcs@[i].start_spec()));
                    }
                    assert forall|pr: (usize, Letter)| self.pairs_from(f0, idx, r).contains(pr) implies self.pairs_from(f1, idx, r).contains(pr) by {
                        let i = choose|i: int| 0 <= i < self.arcs@.len() && f0.contains(self.arcs@[i].start_spec())
                            && self.arcs@[i].start_layer != idx && r.contains(self.arcs@[i].end_spec())
                            && pr == (#[trigger] self.arcs@[i]).pair();
                        assert(f1.contains(self.arcs@[i].start_spec()));
                    }
                }
                assert(explanation@.to_set() =~= ex0.union(self.pairs_from(f1, idx, r)));
            }
            qi = qi + 1;
        }
        assert(frontier@.take(frontier@.len() as int) =~= frontier@);
    }

    /// The nodes entered from `frontier` by arcs that carry `letter` at variable
    /// `variable_index`, or elsewhere carry a letter whose pair is not in `explanation`.
    fn advance_frontier(&self, frontier: &Vec<Node>, variable_index: usize, letter: Letter,
        explanation: &Vec<(usize, Letter)>) -> (next: Vec<Node>)
        requires
            self.structure(),
        ensures
            next@.no_duplicates(),
            next@.to_set() == self.next_from(frontier@.to_set(), variable_index as int, letter, explanation@.to_set()),
    {
        let ghost ex = explanation@.to_set();
        let ghost idx = variable_index as int;
        let mut next: Vec<Node> = Vec::new();
        let mut qi: usize = 0;
        while qi < frontier.len()
            invariant
                self.structure(),
                idx == variable_index as int,
                ex == explanation@.to_set(),
                qi <= frontier@.len(),
                next@.no_duplicates(),
                next@.to_set() == self.next_from(frontier@.take(qi as int).to_set(), idx, letter, ex),
            decreases frontier@.len() - qi,
        {
            let node = frontier[qi];
            let edges = self.outbound_edges_all(node);
            let ghost n1 = next@.to_set();
            let mut k: usize = 0;
            while k < edges.len()
                invariant
                    self.structure(),
                    idx == variable_index as int,
                    ex == explanation@.to_set(),
                    k <= edges@.len(),
                    forall|a: Arc| #[trigger] edges@.contains(a) <==> (self.arcs@.contains(a) && a.start_spec() == node),
                    next@.no_duplicates(),
                    next@.to_set() == n1.union(Set::new(|n: Node| self.entered(edges@, k as int, idx, letter, ex, n))),
                decreases edges@.len() - k,
            {
                let edge = edges[k];
                let ghost before = next@;
                assert(edges@[k as int] == edge);
                assert(edges@.contains(edge));
                assert(self.arcs@.contains(edge));
                let allowed_edge = edge.start_layer == variable_index && edge.letter == letter;
                let general_edge = edge.start_layer != variable_index
                    && !contains_pair(explanation, (edge.start_layer, edge.letter));
                assert((allowed_edge || general_edge) == self.passes(edge, idx, letter, ex));
                if allowed_edge || general_edge {
                    push_new_node(&mut next, edge.end());
                }
                proof {
                    assert forall|n: Node| #[trigger] self.entered(edges@, k + 1, idx, letter, ex, n) <==>
                        (self.entered(edges@, k as int, idx, letter, ex, n) || self.enters(edges@, k as int, idx, letter, ex, n)) by {
                        if self.entered(edges@, k + 1, idx, letter, ex, n) {
                            let m = choose|m: int| 0 <= m < k + 1 && #[trigger] self.enters(edges@, m, idx, letter, ex, n);
                            if m < k {
                                assert(self.entered(edges@, k as int, idx, letter, ex, n));
                            }
                        }
                        if self.entered(edges@, k as int, idx, letter, ex, n) {
                            let m = choose|m: int| 0 <= m < k && #[trigger] self.enters(edges@, m, idx, letter, ex, n);
                            assert(0 <= m < k + 1 && self.enters(edges@, m, idx, letter, ex, n));
                        }
                        if self.enters(edges@, k as int, idx, letter, ex, n) {
                            assert(0 <= k < k + 1 && self.enters(edges@, k as int, idx, letter, ex, n));
                        }
                    }
                    assert(edges@[k as int] == edge);
                    if allowed_edge || general_edge {
                        assert(self.enters(edges@, k as int, idx, letter, ex, edge.end_spec()));
                    }
                    assert(next@.to_set() =~= n1.union(Set::new(|n: Node| self.entered(edges@, k + 1, idx, letter, ex, n))));
                }
                k = k + 1;
            }
            proof {
                let f0 = frontier@.take(qi as int).to_set();
                let f1 = frontier@.take(qi + 1).to_set();
                assert(frontier@.take(qi + 1) =~= frontier@.take(qi as int).push(node));
                frontier@.take(qi as int).lemma_push_to_set_commute(node);
                assert(f1 =~= f0.insert(node));
                let edge_nodes = Set::new(|n: Node| self.entered(edges@, edges@.len() as int, idx, letter, ex, n));
                assert(self.next_from(f1, idx, letter, ex) =~= self.next_from(f0, idx, letter, ex).union(edge_nodes)) by {
                    assert forall|n: Node| self.next_from(f1, idx, letter, ex).contains(n) implies
                        self.next_from(f0, idx, letter, ex).contains(n) || edge_nodes.contains(n) by {
                        let i = choose|i: int| 0 <= i < self.arcs@.len() && f1.contains(self.arcs@[i].start_spec())
                            && (#[trigger] self.arcs@[i]).end_spec() == n && self.passes(self.arcs@[i], idx, letter, ex);
                        if !f0.contains(self.arcs@[i].start_spec()) {
                            assert(edges@.contains(self.arcs@[i]));
                            let m = choose|m: int| 0 <= m < edges@.len() && edges@[m] == self.arcs@[i];
                            assert(self.enters(edges@, m, idx, letter, ex, n));
                            assert(self.entered(edges@, edges@.len() as int, idx, letter, ex, n));
                        }
                    }
                    assert forall|n: Node| edge_nodes.contains(n) implies self.next_from(f1, idx, letter, ex).contains(n) by {
                        let m = choose|m: int| 0 <= m < edges@.len() && #[trigger] self.enters(edges@, m, idx, letter, ex, n);
                        assert(edges@.contains(edges@[m]));
                        let i = choose|i: int| 0 <= i < self.arcs@.len() && self.arcs@[i] == edges@[m];
                        assert(f1.contains(self.arcs@[i].start_spec()));
                    }
                    assert forall|n: Node| self.next_from(f0, idx, letter, ex).contains(n) implies self.next_from(f1, idx, letter, ex).contains(n) by {
                        let i = choose|i: int| 0 <= i < self.arcs@.len() && f0.contains(self.arcs@[i].start_spec())
                            && (#[trigger] self.arcs@[i]).end_spec() == n && self.passes(self.arcs@[i], idx, letter, ex);
                        assert(f1.contains(self.arcs@[i].start_spec()));
                    }
                }
            }
            qi = qi + 1;
        }
        assert(frontier@.take(frontier@.len() as int) =~= frontier@);
        next
    }

    /// The (variable, letter) pairs that explain why the `variable_index`-th
    /// variable cannot take `letter`: walking forward from the starting node,
    /// layer by layer, every arc elsewhere that could lead to acceptance (with the
    /// variable taking `letter`) contributes its pair, and the walk goes on only
    /// through `letter` at that variable and through pairs not gathered.
    pub fn explain_removal(&self, variable_index: usize, letter: Letter) -> (explanation: Vec<(usize, Letter)>)
        requires
            self.wf(),
        ensures
            explanation@.no_duplicates(),
            explanation@.to_set() == self.explanation(variable_index as int, letter),
    {
        let ghost idx = variable_index as int;
        let reaches_accepting = self.reaches_accepting(variable_index, letter);
        proof {
            assert(reaches_accepting@.to_set() =~= self.reach_set(idx, letter));
        }
        let mut explanation: Vec<(usize, Letter)> = Vec::new();
        let mut queue: Vec<Node> = Vec::new();
        queue.push(self.starting_node());
        let ghost mut l: nat = 0;
        proof {
            assert forall|x: Node| queue@.to_set().contains(x) <==> x == (Node { layer: 0, state: self.starting }) by {
                if x == (Node { layer: 0, state: self.starting }) {
                    assert(queue@[0] == x);
                }
            }
            assert(queue@.to_set() =~= self.explain_state(idx, letter, 0).0);
            assert(explanation@.to_set() =~= self.explain_state(idx, letter, 0).1);
            self.lemma_explain_state(idx, letter, 0);
        }
        while queue.len() > 0
            invariant
                self.wf(),
                idx == variable_index as int,
                reaches_accepting@.to_set() == self.reach_set(idx, letter),
                queue@.to_set() == self.explain_state(idx, letter, l).0,
                explanation@.no_duplicates(),
                explanation@.to_set() == self.explain_state(idx, letter, l).1,
                l <= self.layer_count,
                queue@.len() > 0 ==> l < self.layer_count,
            decreases self.layer_count - l,
        {
            self.gather_pairs(&queue, variable_index, &reaches_accepting, &mut explanation);
            let new_queue = self.advance_frontier(&queue, variable_index, letter, &explanation);
            queue = new_queue;
            proof {
                l = l + 1;
                self.lemma_explain_state(idx, letter, l);
                if queue@.len() > 0 {
                    assert(queue@.to_set().contains(queue@[0]));
                }
            }
        }
        proof {
            assert(queue@.to_set() =~= Set::<Node>::empty());
            self.lemma_explain_settled(idx, letter, l, self.layer_count as nat);
        }
        explanation
    }

    /// Whether `node` ought to stay alive: it has a living arc in (or is the
    /// starting node) and a living arc out (or is an accepting node of the last layer).
    fn check_node(&self, node: Node) -> (b: bool)
        requires
            self.structure(),
        ensures
            b == self.supported(node),
    {
        let inbound = self.inbound_edges(node);
        let outbound = self.outbound_edges(node);
        let has_inbound = inbound.len() > 0;
        let has_outbound = outbound.len() > 0;
        let is_first = node.layer == 0 && self.starting == node.state;
        let is_last = node.layer == self.layer_count - 1 && contains_usize(&self.accepting, node.state);
        proof {
            if has_inbound {
                assert(inbound@.contains(inbound@[0]));
                let k = choose|k: int| 0 <= k < self.arcs@.len() && self.arcs@[k] == inbound@[0] && #[trigger] self.arc_life@[k];
                assert(self.has_alive_in(node));
            }
            if self.has_alive_in(node) {
                let k = choose|k: int| 0 <= k < self.arcs@.len() && #[trigger] self.arc_life@[k] && self.arcs@[k].end_spec() == node;
                self.lemma_arc_alive_at(k);
                assert(inbound@.contains(self.arcs@[k]));
            }
            if has_outbound {
                assert(outbound@.contains(outbound@[0]));
                let k = choose|k: int| 0 <= k < self.arcs@.len() && self.arcs@[k] == outbound@[0] && #[trigger] self.arc_life@[k];
                assert(self.has_alive_out(node));
            }
            if self.has_alive_out(node) {
                let k = choose|k: int| 0 <= k < self.arcs@.len() && #[trigger] self.arc_life@[k] && self.arcs@[k].start_spec() == node;
                self.lemma_arc_alive_at(k);
                assert(outbound@.contains(self.arcs@[k]));
            }
        }
        if !is_first && !has_inbound {
            return false;
        }
        if !is_last && !has_outbound {
            return false;
        }
        true
    }

    /// Kills `node` and, on the sides `direction` names, its living arcs (which
    /// in turn re-examine their other ends).
    fn kill_node(&mut self, node: Node, direction: Direction)
        requires
            old(self).structure(),
        ensures
            final(self).structure(),
            final(self).same_shape(*old(self)),
            final(self).domain@ == old(self).domain@,
            final(self).life_shrinks(*old(self)),
            final(self).no_new_unsupported(*old(self)),
            final(self).dead_are_isolated(*old(self), Some(node)),
            old(self).has_node(node) ==> !final(self).node_alive(node),
            !old(self).has_node(node) ==> *final(self) == *old(self),
            direction.fwd() ==> forall|i: int| 0 <= i < final(self).arcs@.len()
                && final(self).arcs@[i].start_spec() == node ==> !#[trigger] final(self).arc_life@[i],
            direction.bwd() ==> forall|i: int| 0 <= i < final(self).arcs@.len()
                && final(self).arcs@[i].end_spec() == node ==> !#[trigger] final(self).arc_life@[i],
            forall|p: Seq<Arc>| #[trigger] old(self).is_full_path(p) && old(self).path_alive(p)
                && !old(self).node_on(p, node) ==> final(self).path_alive(p),
        decreases 2 * count_true(old(self).arc_life@) + 1,
    {
        let ghost g0 = *self;
        let jn = match self.node_index(node) {
            Some(j) => j,
            None => {
                return;
            },
        };
        self.node_life.set(jn, false);
        proof {
            self.lemma_node_alive_at(jn as int);
            assert forall|p: Seq<Arc>| #[trigger] g0.is_full_path(p) && g0.path_alive(p)
                implies self.path_alive(p) by {
                assert forall|j: int| 0 <= j < p.len() implies self.arc_alive(#[trigger] p[j]) by {
                    assert(g0.arc_alive(p[j]));
                }
            }
            assert(self.no_new_unsupported(g0)) by {
                assert forall|j: int| 0 <= j < self.nodes@.len() && #[trigger] self.node_life@[j] && !self.supported(self.nodes@[j])
                    implies g0.node_life@[j] && !g0.supported(g0.nodes@[j]) by {
                    assert(self.has_alive_in(self.nodes@[j]) == g0.has_alive_in(self.nodes@[j]));
                    assert(self.has_alive_out(self.nodes@[j]) == g0.has_alive_out(self.nodes@[j]));
                }
            }
        }
        if direction.forward() {
            let out = self.outbound_edges(node);
            let ghost g1 = *self;
            let mut k: usize = 0;
            while k < out.len()
                invariant
                    self.structure(),
                    self.same_shape(g0),
                    self.domain@ == g0.domain@,
                    g1.same_shape(g0),
                    g1.structure(),
                    self.life_shrinks(g0),
                    self.life_shrinks(g1),
                    self.no_new_unsupported(g0),
                    self.dead_are_isolated(g0, Some(node)),
                    jn < self.nodes@.len(),
                    self.nodes@[jn as int] == node,
                    !self.node_life@[jn as int],
                    k <= out@.len(),
                    forall|a: Arc| #[trigger] out@.contains(a) <==> (g1.arcs@.contains(a) && g1.arc_alive(a) && a.start_spec() == node),
                    forall|m: int| 0 <= m < k ==> !self.arc_alive(#[trigger] out@[m]),
                    count_true(self.arc_life@) <= count_true(g0.arc_life@),
                    g0.arc_life@ == old(self).arc_life@,
                    forall|p: Seq<Arc>| #[trigger] g0.is_full_path(p) && g0.path_alive(p)
                        && !g0.node_on(p, node) ==> self.path_alive(p),
                decreases out@.len() - k,
            {
                let ghost sk = *self;
                let edge = out[k];
                assert(out@.contains(edge));
                proof {
                    self.lemma_node_alive_at(jn as int);
                }
                assert(2 * count_true(self.arc_life@) < 2 * count_true(g0.arc_life@) + 1);
                self.kill_edge(edge, Direction::Forward);
                proof {
                    Self::lemma_steps_compose(g0, sk, *self, Some(node));
                    assert(self.dead_are_isolated(sk, Some(node)));
                    assert(self.life_shrinks(g1));
                    lemma_count_true_mono(self.arc_life@, sk.arc_life@);
                    assert forall|m: int| 0 <= m < k + 1 implies !self.arc_alive(#[trigger] out@[m]) by {
                        if m < k {
                            assert(!sk.arc_alive(out@[m]));
                            assert(out@.contains(out@[m]));
                            let i = choose|i: int| 0 <= i < g1.arcs@.len() && g1.arcs@[i] == out@[m];
                            sk.lemma_arc_alive_at(i);
                            self.lemma_arc_alive_at(i);
                        }
                    }
                    assert forall|p: Seq<Arc>| #[trigger] g0.is_full_path(p) && g0.path_alive(p)
                        && !g0.node_on(p, node) implies self.path_alive(p) by {
                        assert(sk.path_alive(p));
                        assert(sk.is_full_path(p));
                        if p.contains(edge) {
                            let j = choose|j: int| 0 <= j < p.len() && p[j] == edge;
                            g0.lemma_arc_ends_on_path(p, j);
                        }
                    }
                }
                k = k + 1;
            }
            proof {
                assert forall|i: int| 0 <= i < self.arcs@.len() && self.arcs@[i].start_spec() == node
                    implies !#[trigger] self.arc_life@[i] by {
                    g1.lemma_arc_alive_at(i);
                    if g1.arc_life@[i] {
                        assert(out@.contains(self.arcs@[i]));
                        let m = choose|m: int| 0 <= m < out@.len() && out@[m] == self.arcs@[i];
                        assert(!self.arc_alive(out@[m]));
                        self.lemma_arc_alive_at(i);
                    }
                }
            }
        }
        if direction.backward() {
            let inc = self.inbound_edges(node);
            let ghost g1 = *self;
            let mut k: usize = 0;
            while k < inc.len()
                invariant
                    self.structure(),
                    self.same_shape(g0),
                    self.domain@ == g0.domain@,
                    g1.same_shape(g0),
                    g1.structure(),
                    self.life_shrinks(g0),
                    self.life_shrinks(g1),
                    self.no_new_unsupported(g0),
                    self.dead_are_isolated(g0, Some(node)),
                    jn < self.nodes@.len(),
                    self.nodes@[jn as int] == node,
                    !self.node_life@[jn as int],
                    direction.fwd() ==> forall|i: int| 0 <= i < g1.arcs@.len()
                        && g1.arcs@[i].start_spec() == node ==> !#[trigger] g1.arc_life@[i],
                    k <= inc@.len(),
                    forall|a: Arc| #[trigger] inc@.contains(a) <==> (g1.arcs@.contains(a) && g1.arc_alive(a) && a.end_spec() == node),
                    forall|m: int| 0 <= m < k ==> !self.arc_alive(#[trigger] inc@[m]),
                    count_true(self.arc_life@) <= count_true(g0.arc_life@),
                    g0.arc_life@ == old(self).arc_life@,
                    forall|p: Seq<Arc>| #[trigger] g0.is_full_path(p) && g0.path_alive(p)
                        && !g0.node_on(p, node) ==> self.path_alive(p),
                decreases inc@.len() - k,
            {
                let ghost sk = *self;
                let edge = inc[k];
                assert(inc@.contains(edge));
                proof {
                    self.lemma_node_alive_at(jn as int);
                }
                assert(2 * count_true(self.arc_life@) < 2 * count_true(g0.arc_life@) + 1);
                self.kill_edge(edge, Direction::Backward);
                proof {
                    Self::lemma_steps_compose(g0, sk, *self, Some(node));
                    assert(self.life_shrinks(g1));
                    lemma_count_true_mono(self.arc_life@, sk.arc_life@);
                    assert forall|m: int| 0 <= m < k + 1 implies !self.arc_alive(#[trigger] inc@[m]) by {
                        if m < k {
                            assert(!sk.arc_alive(inc@[m]));
                            assert(inc@.contains(inc@[m]));
                            let i = choose|i: int| 0 <= i < g1.arcs@.len() && g1.arcs@[i] == inc@[m];
                            sk.lemma_arc_alive_at(i);
                            self.lemma_arc_alive_at(i);
                        }
                    }
                    assert forall|p: Seq<Arc>| #[trigger] g0.is_full_path(p) && g0.path_alive(p)
                        && !g0.node_on(p, node) implies self.path_alive(p) by {
                        assert(sk.path_alive(p));
                        assert(sk.is_full_path(p));
                        if p.contains(edge) {
                            let j = choose|j: int| 0 <= j < p.len() && p[j] == edge;
                            g0.lemma_arc_ends_on_path(p, j);
                        }
                    }
                }
                k = k + 1;
            }
            proof {
                assert forall|i: int| 0 <= i < self.arcs@.len() && self.arcs@[i].end_spec() == node
                    implies !#[trigger] self.arc_life@[i] by {
                    g1.lemma_arc_alive_at(i);
                    if g1.arc_life@[i] {
                        assert(inc@.contains(self.arcs@[i]));
                        let m = choose|m: int| 0 <= m < inc@.len() && inc@[m] == self.arcs@[i];
                        assert(!self.arc_alive(inc@[m]));
                        self.lemma_arc_alive_at(i);
                    }
                }
            }
        }
        proof {
            self.lemma_node_alive_at(jn as int);
        }
    }

    /// Kills `edge`; if it was alive, re-examines the ends that `direction`
    /// names and kills those left without support.
    fn kill_edge(&mut self, edge: Arc, direction: Direction)
        requires
            old(self).structure(),
            old(self).has_arc(edge),
            !direction.fwd() ==> !old(self).node_alive(edge.end_spec()),
            !direction.bwd() ==> !old(self).node_alive(edge.start_spec()),
        ensures
            final(self).structure(),
            final(self).same_shape(*old(self)),
            final(self).domain@ == old(self).domain@,
            final(self).life_shrinks(*old(self)),
            final(self).no_new_unsupported(*old(self)),
            final(self).dead_are_isolated(*old(self), None),
            !final(self).arc_alive(edge),
            forall|p: Seq<Arc>| #[trigger] old(self).is_full_path(p) && old(self).path_alive(p)
                && !p.contains(edge) ==> final(self).path_alive(p),
            old(self).all_supported() && old(self).no_dangling() ==> final(self).all_supported() && final(self).no_dangling(),
        decreases 2 * count_true(old(self).arc_life@),
    {
        let ghost g0 = *self;
        let i = self.arc_index(edge);
        let was_alive = self.arc_life[i];
        self.arc_life.set(i, false);
        let ghost g1 = *self;
        proof {
            self.lemma_arc_alive_at(i as int);
            assert forall|p: Seq<Arc>| #[trigger] g0.is_full_path(p) && g0.path_alive(p) && !p.contains(edge)
                implies self.path_alive(p) by {
                assert forall|j: int| 0 <= j < p.len() implies self.arc_alive(#[trigger] p[j]) by {
                    assert(g0.arc_alive(p[j]));
                    let k = choose|k: int| 0 <= k < g0.arcs@.len() && g0.arcs@[k] == p[j] && #[trigger] g0.arc_life@[k];
                    assert(k != i);
                    assert(self.arc_life@[k]);
                }
            }
            if was_alive {
                lemma_count_true_update_false(g0.arc_life@, i as int);
            } else {
                assert(self.arc_life@ =~= g0.arc_life@);
            }
            assert forall|j: int| 0 <= j < self.nodes@.len() && #[trigger] self.node_life@[j]
                && !self.supported(self.nodes@[j]) && self.nodes@[j] != edge.start_spec() && self.nodes@[j] != edge.end_spec()
                implies g0.node_life@[j] && !g0.supported(g0.nodes@[j]) by {
                Self::lemma_support_after_arc_kill(g0, *self, i as int, self.nodes@[j]);
            }
        }
        if was_alive {
            if direction.forward() {
                let node = edge.end();
                let should_live = self.check_node(node);
                if !should_live {
                    let ghost s1 = *self;
                    proof {
                        assert forall|p: Seq<Arc>| #[trigger] s1.is_full_path(p) && s1.path_alive(p)
                            implies !s1.node_on(p, node) by {
                            if s1.node_on(p, node) {
                                s1.lemma_on_alive_path_supported(p, node);
                            }
                        }
                    }
                    self.kill_node(node, Direction::Both);
                    proof {
                        assert(self.nodes@.contains(node));
                        assert forall|p: Seq<Arc>| #[trigger] g0.is_full_path(p) && g0.path_alive(p) && !p.contains(edge)
                            implies self.path_alive(p) by {
                            assert(s1.is_full_path(p));
                            assert(s1.path_alive(p));
                        }
                    }
                }
            }
            let ghost g2 = *self;
            assert(forall|p: Seq<Arc>| #[trigger] g0.is_full_path(p) && g0.path_alive(p) && !p.contains(edge)
                ==> g2.path_alive(p));
            if direction.backward() {
                let node = edge.start();
                if !self.check_node(node) {
                    let ghost s2 = *self;
                    proof {
                        lemma_count_true_mono(s2.arc_life@, g1.arc_life@);
                        assert forall|p: Seq<Arc>| #[trigger] s2.is_full_path(p) && s2.path_alive(p)
                            implies !s2.node_on(p, node) by {
                            if s2.node_on(p, node) {
                                s2.lemma_on_alive_path_supported(p, node);
                            }
                        }
                    }
                    self.kill_node(node, Direction::Both);
                    proof {
                        assert(self.nodes@.contains(node));
                        assert forall|p: Seq<Arc>| #[trigger] g0.is_full_path(p) && g0.path_alive(p) && !p.contains(edge)
                            implies self.path_alive(p) by {
                            assert(s2.is_full_path(p));
                            assert(s2.path_alive(p));
                        }
                    }
                }
            }
            proof {
                let x = edge.end_spec();
                let y = edge.start_spec();
                assert(self.dead_are_isolated(g0, None)) by {
                    assert forall|j: int, k: int|
                        #![trigger self.node_life@[j], self.arc_life@[k]]
                        0 <= j < self.nodes@.len() && g0.node_life@[j] && !self.node_life@[j] && 0 <= k < self.arcs@.len()
                            && (self.arcs@[k].start_spec() == self.nodes@[j] || self.arcs@[k].end_spec() == self.nodes@[j])
                            implies !self.arc_life@[k] by {
                        if g2.node_life@[j] {
                            assert(!self.arc_life@[k]);
                        } else {
                            assert(!g2.arc_life@[k]);
                        }
                    }
                }
                assert(self.no_new_unsupported(g0)) by {
                    assert forall|j: int| 0 <= j < self.nodes@.len() && #[trigger] self.node_life@[j] && !self.supported(self.nodes@[j])
                        implies g0.node_life@[j] && !g0.supported(g0.nodes@[j]) by {
                        assert(g2.node_life@[j] && !g2.supported(g2.nodes@[j]));
                        assert(g1.node_life@[j] && !g1.supported(g1.nodes@[j]));
                        if self.nodes@[j] == x {
                            if direction.fwd() {
                            } else {
                                g0.lemma_node_alive_at(j);
                            }
                        }
                        if self.nodes@[j] == y {
                            if direction.bwd() {
                            } else {
                                g0.lemma_node_alive_at(j);
                            }
                        }
                    }
                }
            }
        } else {
            proof {
                assert(self.arc_life@ =~= g0.arc_life@);
            }
        }
        proof {
            self.lemma_arc_alive_at(i as int);
            self.lemma_life_kept(g0);
        }
    }

    /// Life only fading, no new unsupported node and dead nodes left without
    /// living arcs keep every living node supported and every living arc
    /// between living nodes.
    proof fn lemma_life_kept(self, old: LayeredGraph)
        requires
            self.structure(),
            old.structure(),
            self.same_shape(old),
            self.life_shrinks(old),
            self.no_new_unsupported(old),
            self.dead_are_isolated(old, None),
        ensures
            old.all_supported() && old.no_dangling() ==> self.all_supported() && self.no_dangling(),
    {
        if old.all_supported() && old.no_dangling() {
            assert forall|i: int| 0 <= i < self.arcs@.len() && #[trigger] self.arc_life@[i] implies
                self.node_alive(self.arcs@[i].start_spec()) && self.node_alive(self.arcs@[i].end_spec()) by {
                assert(old.arc_life@[i]);
                let a = self.arcs@[i];
                assert(old.node_alive(a.start_spec()) && old.node_alive(a.end_spec()));
                let js = choose|js: int| 0 <= js < old.nodes@.len() && old.nodes@[js] == a.start_spec() && #[trigger] old.node_life@[js];
                let je = choose|je: int| 0 <= je < old.nodes@.len() && old.nodes@[je] == a.end_spec() && #[trigger] old.node_life@[je];
                if !self.node_life@[js] {
                    assert(!self.arc_life@[i]);
                }
                if !self.node_life@[je] {
                    assert(!self.arc_life@[i]);
                }
                assert(self.node_life@[js] && self.node_life@[je]);
            }
        }
    }

    /// The arcs entering (`inbound`) or leaving `node`, only the living ones if `only_alive`.
    fn edges_matching(&self, node: Node, inbound: bool, only_alive: bool) -> (r: Vec<Arc>)
        requires
            self.structure(),
        ensures
            r@.no_duplicates(),
            forall|a: Arc| #[trigger] r@.contains(a) <==> (self.arcs@.contains(a) && (!only_alive || self.arc_alive(a))
                && (if inbound { a.end_spec() == node } else { a.start_spec() == node })),
    {
        let mut r: Vec<Arc> = Vec::new();
        let mut i: usize = 0;
        while i < self.arcs.len()
            invariant
                self.structure(),
                i <= self.arcs@.len(),
                r@.no_duplicates(),
                forall|a: Arc| #[trigger] r@.contains(a) <==> (exists|k: int| 0 <= k < i && self.arcs@[k] == a
                    && (!only_alive || self.arc_life@[k])
                    && (if inbound { a.end_spec() == node } else { a.start_spec() == node })),
            decreases self.arcs@.len() - i,
        {
            let a = self.arcs[i];
            let matches = if inbound {
                a.start_layer < usize::MAX && a.start_layer + 1 == node.layer && a.end_state == node.state
            } else {
                a.start_layer == node.layer && a.start_state == node.state
            };
            let ghost before = r@;
            if matches && (!only_alive || self.arc_life[i]) {
                proof {
                    if before.contains(a) {
                        let k = choose|k: int| 0 <= k < i && self.arcs@[k] == a
                            && (!only_alive || self.arc_life@[k])
                            && (if inbound { a.end_spec() == node } else { a.start_spec() == node });
                        assert(self.arcs@[k] == self.arcs@[i as int]);
                    }
                }
                r.push(a);
            }
            proof {
                assert forall|b: Arc| #[trigger] r@.contains(b) <==> (exists|k: int| 0 <= k < i + 1 && self.arcs@[k] == b
                    && (!only_alive || self.arc_life@[k])
                    && (if inbound { b.end_spec() == node } else { b.start_spec() == node })) by {
                    if r@.contains(b) && !before.contains(b) {
                        let x = choose|x: int| 0 <= x < r@.len() && r@[x] == b;
                        assert(x == before.len());
                        assert(b == a);
                        assert(self.arcs@[i as int] == b);
                    }
                    if r@.contains(b) && before.contains(b) {
                    }
                    if exists|k: int| 0 <= k < i + 1 && self.arcs@[k] == b
                        && (!only_alive || self.arc_life@[k])
                        && (if inbound { b.end_spec() == node } else { b.start_spec() == node }) {
                        let k = choose|k: int| 0 <= k < i + 1 && self.arcs@[k] == b
                            && (!only_alive || self.arc_life@[k])
                            && (if inbound { b.end_spec() == node } else { b.start_spec() == node });
                        if k == i {
                            assert(r@[r@.len() - 1] == b);
                        } else {
                            assert(before.contains(b));
                            let x = choose|x: int| 0 <= x < before.len() && before[x] == b;
                            assert(r@[x] == b);
                        }
                    }
                }
            }
            i = i + 1;
        }
        proof {
            assert forall|a: Arc| #[trigger] r@.contains(a) <==> (self.arcs@.contains(a) && (!only_alive || self.arc_alive(a))
                && (if inbound { a.end_spec() == node } else { a.start_spec() == node })) by {
                if self.arcs@.contains(a) {
                    let k = choose|k: int| 0 <= k < self.arcs@.len() && self.arcs@[k] == a;
                    self.lemma_arc_alive_at(k);
                }
            }
        }
        r
    }
}

/// Removing the entry at `i` from a sequence without duplicates removes exactly that value.
proof fn lemma_seq_remove<A>(s: Seq<A>, i: int)
    requires
        s.no_duplicates(),
        0 <= i < s.len(),
    ensures
        s.remove(i).no_duplicates(),
        forall|x: A| #[trigger] s.remove(i).contains(x) <==> (s.contains(x) && x != s[i]),
{
    s.remove_ensures(i);
    let r = s.remove(i);
    assert forall|a: int, b: int| 0 <= a < r.len() && 0 <= b < r.len() && a != b implies r[a] != r[b] by {
        let sa = if a < i { a } else { a + 1 };
        let sb = if b < i { b } else { b + 1 };
        assert(r[a] == s[sa]);
        assert(r[b] == s[sb]);
    }
    assert forall|x: A| #[trigger] r.contains(x) <==> (s.contains(x) && x != s[i]) by {
        if r.contains(x) {
            let a = choose|a: int| 0 <= a < r.len() && r[a] == x;
            let sa = if a < i { a } else { a + 1 };
            assert(r[a] == s[sa]);
        }
        if s.contains(x) && x != s[i] {
            let k = choose|k: int| 0 <= k < s.len() && s[k] == x;
            if k < i {
                assert(r[k] == x);
            } else {
                assert(r[k - 1] == x);
            }
        }
    }
}

/// Removing one entry of a list without duplicates, and the same entry of its
/// flags, keeps the flag of every entry left.
proof fn lemma_remove_keeps_flag<A>(xs: Seq<A>, life: Seq<bool>, i: int, x: A)
    requires
        xs.no_duplicates(),
        xs.len() == life.len(),
        0 <= i < xs.len(),
        xs.remove(i).contains(x),
    ensures
        (exists|k: int| 0 <= k < xs.remove(i).len() && xs.remove(i)[k] == x && #[trigger] life.remove(i)[k])
            <==> (exists|k: int| 0 <= k < xs.len() && xs[k] == x && #[trigger] life[k]),
{
    xs.remove_ensures(i);
    life.remove_ensures(i);
    lemma_seq_remove(xs, i);
    if exists|k: int| 0 <= k < xs.remove(i).len() && xs.remove(i)[k] == x && #[trigger] life.remove(i)[k] {
        let k = choose|k: int| 0 <= k < xs.remove(i).len() && xs.remove(i)[k] == x && #[trigger] life.remove(i)[k];
        if k < i {
            assert(xs[k] == x && life[k]);
        } else {
            assert(xs[k + 1] == x && life[k + 1]);
        }
    }
    if exists|k: int| 0 <= k < xs.len() && xs[k] == x && #[trigger] life[k] {
        let k = choose|k: int| 0 <= k < xs.len() && xs[k] == x && #[trigger] life[k];
        assert(x != xs[i]);
        assert(k != i);
        if k < i {
            assert(xs.remove(i)[k] == x && life.remove(i)[k]);
        } else {
            assert(xs.remove(i)[k - 1] == x && life.remove(i)[k - 1]);
        }
    }
}

/// Appends `x` to `v` unless it is already there.
fn push_new_arc(v: &mut Vec<Arc>, x: Arc)
    requires
        old(v)@.no_duplicates(),
    ensures
        final(v)@.no_duplicates(),
        forall|y: Arc| #[trigger] final(v)@.contains(y) <==> (old(v)@.contains(y) || y == x),
{
    let mut i: usize = 0;
    while i < v.len()
        invariant
            i <= v@.len(),
            v@ == old(v)@,
            v@.no_duplicates(),
            forall|k: int| 0 <= k < i ==> v@[k] != x,
        decreases v@.len() - i,
    {
        if v[i] == x {
            return;
        }
        i = i + 1;
    }
    let ghost before = v@;
    v.push(x);
    proof {
        assert forall|y: Arc| #[trigger] v@.contains(y) <==> (before.contains(y) || y == x) by {
            if before.contains(y) {
                let k = choose|k: int| 0 <= k < before.len() && before[k] == y;
                assert(v@[k] == y);
            }
            if v@.contains(y) && y != x {
                let k = choose|k: int| 0 <= k < v@.len() && v@[k] == y;
                assert(k < before.len());
            }
            assert(v@[before.len() as int] == x);
        }
    }
}

/// Appends `x` to `v` unless it is already there.
fn push_new_state(v: &mut Vec<usize>, x: usize)
    requires
        old(v)@.no_duplicates(),
    ensures
        final(v)@.no_duplicates(),
        forall|y: usize| #[trigger] final(v)@.contains(y) <==> (old(v)@.contains(y) || y == x),
{
    if contains_usize(v, x) {
        return;
    }
    let ghost before = v@;
    v.push(x);
    proof {
        assert forall|y: usize| #[trigger] v@.contains(y) <==> (before.contains(y) || y == x) by {
            if before.contains(y) {
                let k = choose|k: int| 0 <= k < before.len() && before[k] == y;
                assert(v@[k] == y);
            }
            if v@.contains(y) && y != x {
                let k = choose|k: int| 0 <= k < v@.len() && v@[k] == y;
                assert(k < before.len());
            }
            assert(v@[before.len() as int] == x);
        }
    }
}

/// Adds the arcs `l: s --a--> t` for each listed `t`, and each `t` to `next`.
fn add_targets(arcs: &mut Vec<Arc>, next: &mut Vec<usize>, l: usize, s: usize, a: Letter, targets: &Vec<usize>)
    requires
        old(arcs)@.no_duplicates(),
        old(next)@.no_duplicates(),
    ensures
        final(arcs)@.no_duplicates(),
        final(next)@.no_duplicates(),
        forall|x: Arc| #[trigger] final(arcs)@.contains(x) <==> (old(arcs)@.contains(x)
            || (x.start_layer == l && x.start_state == s && x.letter == a && targets@.contains(x.end_state))),
        forall|t: usize| #[trigger] final(next)@.contains(t) <==> (old(next)@.contains(t) || targets@.contains(t)),
{
    let ghost arcs0 = arcs@;
    let ghost next0 = next@;
    let mut k: usize = 0;
    while k < targets.len()
        invariant
            k <= targets@.len(),
            arcs@.no_duplicates(),
            next@.no_duplicates(),
            forall|x: Arc| #[trigger] arcs@.contains(x) <==> (arcs0.contains(x)
                || (x.start_layer == l && x.start_state == s && x.letter == a && targets@.take(k as int).contains(x.end_state))),
            forall|t: usize| #[trigger] next@.contains(t) <==> (next0.contains(t) || targets@.take(k as int).contains(t)),
        decreases targets@.len() - k,
    {
        let t = targets[k];
        let ghost pre = targets@.take(k as int);
        assert(targets@.take(k + 1) =~= pre.push(t));
        push_new_arc(arcs, Arc { start_layer: l, start_state: s, end_state: t, letter: a });
        push_new_state(next, t);
        proof {
            assert forall|u: usize| pre.push(t).contains(u) <==> (pre.contains(u) || u == t) by {
                if pre.push(t).contains(u) && u != t {
                    let i = choose|i: int| 0 <= i < pre.push(t).len() && pre.push(t)[i] == u;
                    assert(pre[i] == u);
                }
                if pre.contains(u) {
                    let i = choose|i: int| 0 <= i < pre.len() && pre[i] == u;
                    assert(pre.push(t)[i] == u);
                }
                assert(pre.push(t)[pre.len() as int] == t);
            }
        }
        k = k + 1;
    }
    assert(targets@.take(targets@.len() as int) =~= targets@);
}

/// Adds the arcs leaving state `s` in layer `l`, and their targets to `next`.
fn expand_state(nfa: &NFA, arcs: &mut Vec<Arc>, next: &mut Vec<usize>, l: usize, s: usize)
    requires
        old(arcs)@.no_duplicates(),
        old(next)@.no_duplicates(),
    ensures
        final(arcs)@.no_duplicates(),
        final(next)@.no_duplicates(),
        forall|x: Arc| #[trigger] final(arcs)@.contains(x) <==> (old(arcs)@.contains(x)
            || (x.start_layer == l && x.start_state == s && nfa.step(s as int, x.letter, x.end_state as int))),
        forall|t: usize| #[trigger] final(next)@.contains(t) <==> (old(next)@.contains(t)
            || exists|a: Letter| #[trigger] nfa.step(s as int, a, t as int)),
{
    let ghost arcs0 = arcs@;
    let ghost next0 = next@;
    let mut ai: usize = 0;
    while ai < nfa.alphabet.len()
        invariant
            ai <= nfa.alphabet@.len(),
            arcs@.no_duplicates(),
            next@.no_duplicates(),
            forall|x: Arc| #[trigger] arcs@.contains(x) <==> (arcs0.contains(x)
                || (x.start_layer == l && x.start_state == s && nfa.alphabet@.take(ai as int).contains(x.letter)
                    && nfa.succ(s as int, x.letter).contains(x.end_state))),
            forall|t: usize| #[trigger] next@.contains(t) <==> (next0.contains(t)
                || exists|a: Letter| nfa.alphabet@.take(ai as int).contains(a) && #[trigger] nfa.succ(s as int, a).contains(t)),
        decreases nfa.alphabet@.len() - ai,
    {
        let a = nfa.alphabet[ai];
        let ghost pre = nfa.alphabet@.take(ai as int);
        assert(nfa.alphabet@.take(ai + 1) =~= pre.push(a));
        assert forall|b: Letter| pre.push(a).contains(b) <==> (pre.contains(b) || b == a) by {
            if pre.push(a).contains(b) && b != a {
                let i = choose|i: int| 0 <= i < pre.push(a).len() && pre.push(a)[i] == b;
                assert(pre[i] == b);
            }
            if pre.contains(b) {
                let i = choose|i: int| 0 <= i < pre.len() && pre[i] == b;
                assert(pre.push(a)[i] == b);
            }
            assert(pre.push(a)[pre.len() as int] == a);
        }
        let ts = nfa.targets(s, a);
        let ghost next1 = next@;
        add_targets(arcs, next, l, s, a, &ts);
        proof {
            assert forall|t: usize| #[trigger] next@.contains(t) <==> (next0.contains(t)
                || exists|b: Letter| nfa.alphabet@.take(ai + 1).contains(b) && #[trigger] nfa.succ(s as int, b).contains(t)) by {
                if exists|b: Letter| nfa.alphabet@.take(ai + 1).contains(b) && #[trigger] nfa.succ(s as int, b).contains(t) {
                    let b = choose|b: Letter| nfa.alphabet@.take(ai + 1).contains(b) && #[trigger] nfa.succ(s as int, b).contains(t);
                    if b != a {
                        assert(next1.contains(t));
                    }
                }
                if next1.contains(t) && !next0.contains(t) {
                    let b = choose|b: Letter| nfa.alphabet@.take(ai as int).contains(b) && #[trigger] nfa.succ(s as int, b).contains(t);
                    assert(nfa.alphabet@.take(ai + 1).contains(b));
                }
            }
        }
        ai = ai + 1;
    }
    proof {
        assert(nfa.alphabet@.take(nfa.alphabet@.len() as int) =~= nfa.alphabet@);
        assert forall|x: Arc| #[trigger] arcs@.contains(x) <==> (arcs0.contains(x)
            || (x.start_layer == l && x.start_state == s && nfa.step(s as int, x.letter, x.end_state as int))) by {
            lemma_succ_contains(nfa.succ(s as int, x.letter), x.end_state);
        }
        assert forall|t: usize| #[trigger] next@.contains(t) <==> (next0.contains(t)
            || exists|a: Letter| #[trigger] nfa.step(s as int, a, t as int)) by {
            if exists|a: Letter| #[trigger] nfa.step(s as int, a, t as int) {
                let a = choose|a: Letter| #[trigger] nfa.step(s as int, a, t as int);
                lemma_succ_contains(nfa.succ(s as int, a), t);
                assert(nfa.alphabet@.contains(a) && nfa.succ(s as int, a).contains(t));
            }
            if next@.contains(t) && !next0.contains(t) {
                let a = choose|a: Letter| nfa.alphabet@.contains(a) && #[trigger] nfa.succ(s as int, a).contains(t);
                lemma_succ_contains(nfa.succ(s as int, a), t);
                assert(nfa.step(s as int, a, t as int));
            }
        }
    }
}

/// Adds the arcs leaving the states of `current` in layer `l`; returns the states they reach.
fn expand_layer(nfa: &NFA, arcs: &mut Vec<Arc>, l: usize, current: &Vec<usize>) -> (next: Vec<usize>)
    requires
        old(arcs)@.no_duplicates(),
    ensures
        final(arcs)@.no_duplicates(),
        next@.no_duplicates(),
        forall|x: Arc| #[trigger] final(arcs)@.contains(x) <==> (old(arcs)@.contains(x)
            || (x.start_layer == l && current@.contains(x.start_state)
                && nfa.step(x.start_state as int, x.letter, x.end_state as int))),
        forall|t: usize| #[trigger] next@.contains(t) <==> exists|s: usize| #[trigger] current@.contains(s)
            && exists|a: Letter| #[trigger] nfa.step(s as int, a, t as int),
{
    let ghost arcs0 = arcs@;
    let mut next: Vec<usize> = Vec::new();
    let mut ci: usize = 0;
    while ci < current.len()
        invariant
            ci <= current@.len(),
            arcs@.no_duplicates(),
            next@.no_duplicates(),
            forall|x: Arc| #[trigger] arcs@.contains(x) <==> (arcs0.contains(x)
                || (x.start_layer == l && current@.take(ci as int).contains(x.start_state)
                    && nfa.step(x.start_state as int, x.letter, x.end_state as int))),
            forall|t: usize| #[trigger] next@.contains(t) <==> exists|s: usize| #[trigger] current@.take(ci as int).contains(s)
                && exists|a: Letter| #[trigger] nfa.step(s as int, a, t as int),
        decreases current@.len() - ci,
    {
        let s = current[ci];
        let ghost pre = current@.take(ci as int);
        assert(current@.take(ci + 1) =~= pre.push(s));
        assert forall|u: usize| pre.push(s).contains(u) <==> (pre.contains(u) || u == s) by {
            if pre.push(s).contains(u) && u != s {
                let i = choose|i: int| 0 <= i < pre.push(s).len() && pre.push(s)[i] == u;
                assert(pre[i] == u);
            }
            if pre.contains(u) {
                let i = choose|i: int| 0 <= i < pre.len() && pre[i] == u;
                assert(pre.push(s)[i] == u);
            }
            assert(pre.push(s)[pre.len() as int] == s);
        }
        let ghost next1 = next@;
        expand_state(nfa, arcs, &mut next, l, s);
        proof {
            let cur1 = current@.take(ci + 1);
            assert forall|t: usize| #[trigger] next@.contains(t) <==> exists|s2: usize| #[trigger] cur1.contains(s2)
                && exists|a: Letter| #[trigger] nfa.step(s2 as int, a, t as int) by {
                if exists|s2: usize| #[trigger] cur1.contains(s2) && exists|a: Letter| #[trigger] nfa.step(s2 as int, a, t as int) {
                    let s2 = choose|s2: usize| #[trigger] cur1.contains(s2) && exists|a: Letter| #[trigger] nfa.step(s2 as int, a, t as int);
                    if s2 != s {
                        assert(pre.contains(s2));
                        assert(next1.contains(t));
                    }
                }
                if next1.contains(t) {
                    let s2 = choose|s2: usize| #[trigger] pre.contains(s2) && exists|a: Letter| #[trigger] nfa.step(s2 as int, a, t as int);
                    assert(cur1.contains(s2));
                }
                if next@.contains(t) && !next1.contains(t) {
                    assert(cur1[ci as int] == s);
                    assert(cur1.contains(s));
                }
            }
            assert forall|x: Arc| #[trigger] arcs@.contains(x) <==> (arcs0.contains(x)
                || (x.start_layer == l && cur1.contains(x.start_state)
                    && nfa.step(x.start_state as int, x.letter, x.end_state as int))) by {
            }
        }
        ci = ci + 1;
    }
    assert(current@.take(current@.len() as int) =~= current@);
    next
}

/// The only state reached after no letter is the starting state.
proof fn lemma_reaches_zero(nfa: NFA, s: int)
    ensures
        reaches(nfa.step_fn(), nfa.starting_state as int, 0, s) <==> s == nfa.starting_state as int,
{
    let q = Seq::<Arc>::empty();
    assert(is_run(nfa.step_fn(), nfa.starting_state as int, 0, q));
}

/// A state reached after `l + 1` letters is entered from a state reached after `l` letters.
proof fn lemma_reaches_back(nfa: NFA, l: nat, t: usize) -> (s: usize)
    requires
        reaches(nfa.step_fn(), nfa.starting_state as int, l + 1, t as int),
    ensures
        reaches(nfa.step_fn(), nfa.starting_state as int, l, s as int),
        exists|a: Letter| #[trigger] nfa.step(s as int, a, t as int),
{
    let step = nfa.step_fn();
    let start = nfa.starting_state as int;
    let q = choose|q: Seq<Arc>| #[trigger] is_run(step, start, l + 1, q) && run_state(start, q, l + 1int) == t as int;
    lemma_run_last(step, start, l, q);
    let s = q[l as int].start_state;
    assert(is_run(step, start, l, q.drop_last()) && run_state(start, q.drop_last(), l as int) == s as int);
    assert(nfa.step(s as int, q[l as int].letter, t as int));
    s
}

/// A transition from a state reached after `l` letters enters a state reached after `l + 1`.
proof fn lemma_reaches_forward(nfa: NFA, l: nat, s: usize, a: Letter, t: usize)
    requires
        l < usize::MAX,
        reaches(nfa.step_fn(), nfa.starting_state as int, l, s as int),
        nfa.step(s as int, a, t as int),
    ensures
        reaches(nfa.step_fn(), nfa.starting_state as int, l + 1, t as int),
{
    let step = nfa.step_fn();
    let start = nfa.starting_state as int;
    let q = choose|q: Seq<Arc>| #[trigger] is_run(step, start, l, q) && run_state(start, q, l as int) == s as int;
    let x = Arc { start_layer: l as usize, start_state: s, end_state: t, letter: a };
    lemma_run_push(step, start, l, q, x);
    assert(is_run(step, start, l + 1, q.push(x)) && run_state(start, q.push(x), l + 1int) == t as int);
}

/// A state accepts in the integer view iff it is listed.
proof fn lemma_accepting_set(nfa: NFA, s: usize)
    ensures
        nfa.accepting_set().contains(s as int) <==> nfa.accepting_states@.contains(s),
{
    if nfa.accepting_set().contains(s as int) {
        let x = choose|x: usize| nfa.accepting_states@.to_set().contains(x) && x as int == s as int;
        assert(x == s);
    }
    if nfa.accepting_states@.contains(s) {
        assert(nfa.accepting_states@.to_set().contains(s));
    }
}

/// The nodes and arcs reachable from the starting node within `var_count` letters.
fn forward_pass(nfa: &NFA, var_count: usize) -> (res: (Vec<Node>, Vec<Arc>))
    ensures
        res.0@.no_duplicates(),
        forall|n: Node| #[trigger] res.0@.contains(n) <==> n.layer <= var_count
            && reaches(nfa.step_fn(), nfa.starting_state as int, n.layer as nat, n.state as int),
        res.1@.no_duplicates(),
        forall|x: Arc| #[trigger] res.1@.contains(x) <==> x.start_layer < var_count
            && reaches(nfa.step_fn(), nfa.starting_state as int, x.start_layer as nat, x.start_state as int)
            && nfa.step(x.start_state as int, x.letter, x.end_state as int),
{
    let ghost step = nfa.step_fn();
    let ghost start = nfa.starting_state as int;
    let mut nodes: Vec<Node> = Vec::new();
    nodes.push(Node { layer: 0, state: nfa.starting_state });
    let mut current: Vec<usize> = Vec::new();
    current.push(nfa.starting_state);
    let mut arcs: Vec<Arc> = Vec::new();
    proof {
        assert forall|n: Node| #[trigger] nodes@.contains(n) <==> n.layer <= 0 && reaches(step, start, n.layer as nat, n.state as int) by {
            lemma_reaches_zero(*nfa, n.state as int);
            if n.layer == 0 && reaches(step, start, 0, n.state as int) {
                assert(nodes@[0] == n);
            }
        }
        assert forall|s: usize| #[trigger] current@.contains(s) <==> reaches(step, start, 0, s as int) by {
            lemma_reaches_zero(*nfa, s as int);
            if s == nfa.starting_state {
                assert(current@[0] == s);
            }
        }
    }
    let mut l: usize = 0;
    while l < var_count
        invariant
            l <= var_count,
            step == nfa.step_fn(),
            start == nfa.starting_state as int,
            current@.no_duplicates(),
            forall|s: usize| #[trigger] current@.contains(s) <==> reaches(step, start, l as nat, s as int),
            nodes@.no_duplicates(),
            forall|n: Node| #[trigger] nodes@.contains(n) <==> n.layer <= l && reaches(step, start, n.layer as nat, n.state as int),
            arcs@.no_duplicates(),
            forall|x: Arc| #[trigger] arcs@.contains(x) <==> x.start_layer < l
                && reaches(step, start, x.start_layer as nat, x.start_state as int)
                && nfa.step(x.start_state as int, x.letter, x.end_state as int),
        decreases var_count - l,
    {
        let next = expand_layer(nfa, &mut arcs, l, &current);
        proof {
            assert forall|t: usize| #[trigger] next@.contains(t) <==> reaches(step, start, (l + 1) as nat, t as int) by {
                if next@.contains(t) {
                    let s = choose|s: usize| #[trigger] current@.contains(s) && exists|a: Letter| #[trigger] nfa.step(s as int, a, t as int);
                    let a = choose|a: Letter| #[trigger] nfa.step(s as int, a, t as int);
                    lemma_reaches_forward(*nfa, l as nat, s, a, t);
                }
                if reaches(step, start, (l + 1) as nat, t as int) {
                    let s = lemma_reaches_back(*nfa, l as nat, t);
                    assert(current@.contains(s));
                }
            }
        }
        let ghost nodes0 = nodes@;
        let mut k: usize = 0;
        while k < next.len()
            invariant
                l < var_count,
                k <= next@.len(),
                next@.no_duplicates(),
                nodes@.no_duplicates(),
                forall|n: Node| #[trigger] nodes@.contains(n) <==> nodes0.contains(n)
                    || (n.layer == l + 1 && next@.take(k as int).contains(n.state)),
                forall|n: Node| #[trigger] nodes0.contains(n) ==> n.layer <= l,
            decreases next@.len() - k,
        {
            let t = next[k];
            let ghost before = nodes@;
            let ghost pre = next@.take(k as int);
            assert(next@.take(k + 1) =~= pre.push(t));
            proof {
                if before.contains(Node { layer: (l + 1) as usize, state: t }) {
                    assert(pre.contains(t));
                    let m = choose|m: int| 0 <= m < pre.len() && pre[m] == t;
                    assert(next@[m] == next@[k as int]);
                }
            }
            nodes.push(Node { layer: l + 1, state: t });
            proof {
                assert forall|n: Node| #[trigger] nodes@.contains(n) <==> nodes0.contains(n)
                    || (n.layer == l + 1 && next@.take(k + 1).contains(n.state)) by {
                    if nodes@.contains(n) && !before.contains(n) {
                        let m = choose|m: int| 0 <= m < nodes@.len() && nodes@[m] == n;
                        assert(m == before.len());
                        assert(pre.push(t)[pre.len() as int] == t);
                    }
                    if before.contains(n) {
                        let m = choose|m: int| 0 <= m < before.len() && before[m] == n;
                        assert(nodes@[m] == n);
                        if !nodes0.contains(n) {
                            let m2 = choose|m2: int| 0 <= m2 < pre.len() && pre[m2] == n.state;
                            assert(pre.push(t)[m2] == n.state);
                        }
                    }
                    if n.layer == l + 1 && next@.take(k + 1).contains(n.state) {
                        let m2 = choose|m2: int| 0 <= m2 < pre.push(t).len() && pre.push(t)[m2] == n.state;
                        if m2 < pre.len() {
                            assert(pre[m2] == n.state);
                            assert(before.contains(n));
                            let m = choose|m: int| 0 <= m < before.len() && before[m] == n;
                            assert(nodes@[m] == n);
                        } else {
                            assert(nodes@[before.len() as int] == n);
                        }
                    }
                }
            }
            k = k + 1;
        }
        proof {
            assert(next@.take(next@.len() as int) =~= next@);
            assert forall|n: Node| #[trigger] nodes@.contains(n) <==> n.layer <= l + 1
                && reaches(step, start, n.layer as nat, n.state as int) by {
                if n.layer <= l && nodes@.contains(n) {
                    assert(nodes0.contains(n));
                }
            }
            assert forall|x: Arc| #[trigger] arcs@.contains(x) <==> x.start_layer < l + 1
                && reaches(step, start, x.start_layer as nat, x.start_state as int)
                && nfa.step(x.start_state as int, x.letter, x.end_state as int) by {
            }
        }
        current = next;
        l = l + 1;
    }
    (nodes, arcs)
}

/// The letters are strictly increasing.
pub open spec fn increasing(s: Seq<Letter>) -> bool {
    forall|a: int, b: int| 0 <= a < b < s.len() ==> #[trigger] s[a] < #[trigger] s[b]
}

/// Two strictly increasing sequences with the same letters are equal.
pub proof fn lemma_increasing_unique(a: Seq<Letter>, b: Seq<Letter>)
    requires
        increasing(a),
        increasing(b),
        a.to_set() == b.to_set(),
    ensures
        a == b,
    decreases a.len(),
{
    if a.len() == 0 {
        if b.len() > 0 {
            assert(b.to_set().contains(b[0]));
            assert(a.to_set().contains(b[0]));
        }
        assert(b =~= a);
    } else {
        assert(a.to_set().contains(a[0]));
        assert(b.to_set().contains(a[0]));
        let k = choose|k: int| 0 <= k < b.len() && b[k] == a[0];
        assert(b.to_set().contains(b[0]));
        assert(a.to_set().contains(b[0]));
        let m = choose|m: int| 0 <= m < a.len() && a[m] == b[0];
        if k > 0 {
            assert(b[0] < b[k]);
            if m > 0 {
                assert(a[0] < a[m]);
            }
        }
        assert(a[0] == b[0]);
        let a1 = a.drop_first();
        let b1 = b.drop_first();
        assert forall|x: Letter| a1.to_set().contains(x) <==> b1.to_set().contains(x) by {
            if a1.to_set().contains(x) {
                let i = choose|i: int| 0 <= i < a1.len() && a1[i] == x;
                assert(a[i + 1] == x);
                assert(a.to_set().contains(x));
                assert(b.to_set().contains(x));
                let j = choose|j: int| 0 <= j < b.len() && b[j] == x;
                assert(a[0] < a[i + 1]);
                if j == 0 {
                    assert(false);
                }
                assert(b1[j - 1] == x);
                assert(b1.contains(x));
            }
            if b1.to_set().contains(x) {
                let i = choose|i: int| 0 <= i < b1.len() && b1[i] == x;
                assert(b[i + 1] == x);
                assert(b.to_set().contains(x));
                assert(a.to_set().contains(x));
                let j = choose|j: int| 0 <= j < a.len() && a[j] == x;
                assert(b[0] < b[i + 1]);
                if j == 0 {
                    assert(false);
                }
                assert(a1[j - 1] == x);
                assert(a1.contains(x));
            }
        }
        assert(a1.to_set() =~= b1.to_set());
        lemma_increasing_unique(a1, b1);
        assert(a =~= seq![a[0]] + a1);
        assert(b =~= seq![b[0]] + b1);
    }
}

/// The letters of `v`, each once, in increasing order.
fn sorted_letters(v: &Vec<Letter>) -> (out: Vec<Letter>)
    ensures
        increasing(out@),
        out@.no_duplicates(),
        out@.to_set() == v@.to_set(),
{
    let mut out: Vec<Letter> = Vec::new();
    let mut i: usize = 0;
    while i < v.len()
        invariant
            i <= v@.len(),
            increasing(out@),
            forall|x: Letter| #[trigger] out@.contains(x) <==> v@.take(i as int).contains(x),
        decreases v@.len() - i,
    {
        let x = v[i];
        let ghost before = out@;
        let ghost pre = v@.take(i as int);
        assert(v@.take(i + 1) =~= pre.push(x));
        assert(forall|z: Letter| #[trigger] before.contains(z) <==> pre.contains(z));
        let mut pos: usize = 0;
        while pos < out.len() && out[pos] < x
            invariant
                out@ == before,
                pos <= out@.len(),
                forall|k: int| 0 <= k < pos ==> out@[k] < x,
            decreases out@.len() - pos,
        {
            pos = pos + 1;
        }
        if pos < out.len() && out[pos] == x {
        } else {
            out.insert(pos, x);
            proof {
                assert forall|a: int, b: int| 0 <= a < b < out@.len() implies #[trigger] out@[a] < #[trigger] out@[b] by {
                    if b < pos {
                        assert(out@[a] == before[a] && out@[b] == before[b]);
                    } else if b == pos {
                        assert(out@[a] == before[a]);
                    } else if a < pos {
                        assert(out@[a] == before[a] && out@[b] == before[b - 1]);
                        assert(before[b - 1] >= x || b - 1 < pos);
                        if b - 1 > pos {
                            assert(before[pos as int] < before[b - 1]);
                        }
                    } else if a == pos {
                        assert(out@[b] == before[b - 1]);
                        if b - 1 > pos {
                            assert(before[pos as int] < before[b - 1]);
                        }
                    } else {
                        assert(out@[a] == before[a - 1] && out@[b] == before[b - 1]);
                    }
                }
            }
        }
        proof {
            assert forall|y: Letter| #[trigger] out@.contains(y) <==> v@.take(i + 1).contains(y) by {
                if out@.contains(y) {
                    let k = choose|k: int| 0 <= k < out@.len() && out@[k] == y;
                    if y != x {
                        if out@.len() == before.len() {
                            assert(before[k] == y);
                        } else if k < pos {
                            assert(before[k] == y);
                        } else {
                            assert(before[k - 1] == y);
                        }
                        assert(before.contains(y));
                        assert(pre.contains(y));
                        let m = choose|m: int| 0 <= m < pre.len() && pre[m] == y;
                        assert(pre.push(x)[m] == y);
                    } else {
                        assert(pre.push(x)[pre.len() as int] == x);
                    }
                }
                if v@.take(i + 1).contains(y) {
                    let m = choose|m: int| 0 <= m < pre.push(x).len() && pre.push(x)[m] == y;
                    if m < pre.len() {
                        assert(pre[m] == y);
                        assert(before.contains(y));
                        let k = choose|k: int| 0 <= k < before.len() && before[k] == y;
                        if out@.len() != before.len() {
                            if k < pos {
                                assert(out@[k] == y);
                            } else {
                                assert(out@[k + 1] == y);
                            }
                        } else {
                            assert(out@[k] == y);
                        }
                    } else {
                        assert(y == x);
                        if out@.len() == before.len() {
                            assert(out@[pos as int] == x);
                        } else {
                            assert(out@[pos as int] == x);
                        }
                    }
                }
            }
        }
        i = i + 1;
    }
    assert(v@.take(v@.len() as int) =~= v@);
    proof {
        assert forall|a: int, b: int| 0 <= a < out@.len() && 0 <= b < out@.len() && a != b implies out@[a] != out@[b] by {
            if a < b {
                assert(out@[a] < out@[b]);
            } else {
                assert(out@[b] < out@[a]);
            }
        }
        assert(out@.to_set() =~= v@.to_set());
    }
    out
}

/// Listing `t` is the same as listing it as an integer.
proof fn lemma_succ_contains(ts: Seq<usize>, t: usize)
    ensures
        ts.contains(t) <==> exists|k: int| 0 <= k < ts.len() && #[trigger] ts[k] as int == t as int,
{
    if exists|k: int| 0 <= k < ts.len() && #[trigger] ts[k] as int == t as int {
        let k = choose|k: int| 0 <= k < ts.len() && #[trigger] ts[k] as int == t as int;
        assert(ts[k] == t);
    }
}

/// `v` without `value` (each remaining letter once).
fn remove_letter(v: &Vec<Letter>, value: Letter) -> (out: Vec<Letter>)
    requires
        v@.no_duplicates(),
    ensures
        out@.no_duplicates(),
        out@.to_set() == v@.to_set().remove(value),
{
    let mut out: Vec<Letter> = Vec::new();
    let mut i: usize = 0;
    while i < v.len()
        invariant
            i <= v@.len(),
            v@.no_duplicates(),
            out@.no_duplicates(),
            forall|x: Letter| #[trigger] out@.contains(x) <==> (x != value && exists|k: int| 0 <= k < i && v@[k] == x),
        decreases v@.len() - i,
    {
        let ghost before = out@;
        if v[i] != value {
            proof {
                if before.contains(v@[i as int]) {
                    let k = choose|k: int| 0 <= k < i && v@[k] == v@[i as int];
                }
            }
            out.push(v[i]);
        }
        proof {
            assert forall|x: Letter| #[trigger] out@.contains(x) <==> (x != value && exists|k: int| 0 <= k < i + 1 && v@[k] == x) by {
                if out@.contains(x) && !before.contains(x) {
                    let y = choose|y: int| 0 <= y < out@.len() && out@[y] == x;
                    assert(y == before.len());
                }
                if before.contains(x) {
                    let y = choose|y: int| 0 <= y < before.len() && before[y] == x;
                    assert(out@[y] == x);
                }
                if x != value && exists|k: int| 0 <= k < i + 1 && v@[k] == x {
                    let k = choose|k: int| 0 <= k < i + 1 && v@[k] == x;
                    if k == i {
                        assert(out@[out@.len() - 1] == x);
                    }
                }
            }
        }
        i = i + 1;
    }
    assert(out@.to_set() =~= v@.to_set().remove(value));
    out
}

/// Whether `v` holds the node `x`.
fn contains_node(v: &Vec<Node>, x: Node) -> (found: bool)
    ensures
        found == v@.contains(x),
{
    let mut i: usize = 0;
    while i < v.len()
        invariant
            i <= v@.len(),
            forall|j: int| 0 <= j < i ==> v@[j] != x,
        decreases v@.len() - i,
    {
        if v[i] == x {
            return true;
        }
        i = i + 1;
    }
    false
}

/// Whether `v` holds the pair `x`.
fn contains_pair(v: &Vec<(usize, Letter)>, x: (usize, Letter)) -> (found: bool)
    ensures
        found == v@.contains(x),
{
    let mut i: usize = 0;
    while i < v.len()
        invariant
            i <= v@.len(),
            forall|j: int| 0 <= j < i ==> v@[j] != x,
        decreases v@.len() - i,
    {
        if v[i].0 == x.0 && v[i].1 == x.1 {
            return true;
        }
        i = i + 1;
    }
    false
}

/// Appends `x` to `v` unless it is already there.
fn push_new_pair(v: &mut Vec<(usize, Letter)>, x: (usize, Letter))
    requires
        old(v)@.no_duplicates(),
    ensures
        final(v)@.no_duplicates(),
        final(v)@.to_set() == old(v)@.to_set().insert(x),
        forall|y: (usize, Letter)| #[trigger] final(v)@.contains(y) <==> (old(v)@.contains(y) || y == x),
{
    if contains_pair(v, x) {
        assert(v@.to_set() =~= v@.to_set().insert(x));
        return;
    }
    let ghost before = v@;
    v.push(x);
    proof {
        before.lemma_push_to_set_commute(x);
        assert forall|y: (usize, Letter)| #[trigger] v@.contains(y) <==> (before.contains(y) || y == x) by {
            assert(v@.to_set().contains(y) == v@.contains(y));
        }
    }
}

/// Appends `x` to `v` unless it is already there.
fn push_new_node(v: &mut Vec<Node>, x: Node)
    requires
        old(v)@.no_duplicates(),
    ensures
        final(v)@.no_duplicates(),
        final(v)@.to_set() == old(v)@.to_set().insert(x),
{
    if contains_node(v, x) {
        assert(v@.to_set() =~= v@.to_set().insert(x));
        return;
    }
    let ghost before = v@;
    v.push(x);
    proof {
        before.lemma_push_to_set_commute(x);
    }
}

/// Some arc among the first `k` of `edges` contributes the pair `pr`.
spec fn gathered(edges: Seq<Arc>, k: int, idx: int, r: Set<Node>, pr: (usize, Letter)) -> bool {
    exists|m: int| 0 <= m < k && #[trigger] edges_pair_witness(edges, m, idx, r, pr)
}

/// The pair of `edges[m]` is gathered.
spec fn edges_pair_witness(edges: Seq<Arc>, m: int, idx: int, r: Set<Node>, pr: (usize, Letter)) -> bool {
    0 <= m < edges.len() && edges[m].start_layer != idx && r.contains(edges[m].end_spec()) && pr == edges[m].pair()
}

/// Whether `v` holds the letter `x`.
pub fn contains_letter(v: &Vec<Letter>, x: Letter) -> (found: bool)
    ensures
        found == v@.contains(x),
{
    let mut i: usize = 0;
    while i < v.len()
        invariant
            i <= v@.len(),
            forall|j: int| 0 <= j < i ==> v@[j] != x,
        decreases v@.len() - i,
    {
        if v[i] == x {
            return true;
        }
        i = i + 1;
    }
    false
}


// ------------------------------------------------------------------ drawing

/// How a node of the graph is drawn.
#[derive(Debug, Clone, Copy)]
pub struct NodeMark {
    pub node: Node,
    /// Dead nodes are drawn faded.
    pub alive: bool,
    /// The node is an accepting node of the last layer.
    pub accepting: bool,
}

/// How an arc of the graph is drawn.
#[derive(Debug, Clone, Copy)]
pub struct ArcMark {
    pub arc: Arc,
    /// Dead arcs are drawn faded.
    pub alive: bool,
    /// The position of the arc's letter in the alphabet, which picks its line style.
    pub letter_index: usize,
    /// The first living arc of each letter is labelled with the letter.
    pub labelled: bool,
}

/// One of the first `i` marks is of a living arc with the letter at position `y`.
pub open spec fn lit_before(ms: Seq<ArcMark>, i: int, y: int) -> bool {
    exists|t: int| 0 <= t < i && (#[trigger] ms[t]).alive && ms[t].letter_index == y
}

/// The `k`-th mark is labelled exactly when its arc lives and no earlier
/// living arc has its letter.
pub open spec fn label_rule(ms: Seq<ArcMark>, k: int) -> bool {
    ms[k].labelled == (ms[k].alive && !lit_before(ms, k, ms[k].letter_index as int))
}

/// The flags of the letters seen once the mark `m` is added.
spec fn marked_after(marked: Seq<bool>, m: ArcMark) -> Seq<bool> {
    if m.labelled { marked.update(m.letter_index as int, true) } else { marked }
}

/// Pushing a mark labelled by the flags of the letters seen keeps the flags
/// and the labels right.
proof fn lemma_mark_pushed(ms: Seq<ArcMark>, m: ArcMark, marked: Seq<bool>)
    requires
        forall|y: int| 0 <= y < marked.len() ==> (#[trigger] marked[y] <==> lit_before(ms, ms.len() as int, y)),
        forall|k: int| 0 <= k < ms.len() ==> #[trigger] label_rule(ms, k),
        m.letter_index < marked.len(),
        m.labelled == (m.alive && !marked[m.letter_index as int]),
    ensures
        forall|y: int| 0 <= y < marked.len() ==> (#[trigger] marked_after(marked, m)[y]
            <==> lit_before(ms.push(m), ms.len() + 1int, y)),
        forall|k: int| 0 <= k < ms.len() + 1 ==> #[trigger] label_rule(ms.push(m), k),
{
    let ns = ms.push(m);
    let n = ms.len() as int;
    assert forall|k: int, y: int| 0 <= k <= n implies #[trigger] lit_before(ns, k, y) == lit_before(ms, k, y) by {
        if lit_before(ns, k, y) {
            let t = choose|t: int| 0 <= t < k && (#[trigger] ns[t]).alive && ns[t].letter_index == y;
            assert(ms[t] == ns[t]);
        }
        if lit_before(ms, k, y) {
            let t = choose|t: int| 0 <= t < k && (#[trigger] ms[t]).alive && ms[t].letter_index == y;
            assert(ms[t] == ns[t]);
        }
    }
    let marked2 = marked_after(marked, m);
    assert forall|y: int| 0 <= y < marked.len() implies (#[trigger] marked2[y] <==> lit_before(ns, n + 1, y)) by {
        assert(lit_before(ns, n, y) == lit_before(ms, n, y));
        if lit_before(ns, n + 1, y) && !lit_before(ns, n, y) {
            let t = choose|t: int| 0 <= t < n + 1 && (#[trigger] ns[t]).alive && ns[t].letter_index == y;
            assert(t == n);
        }
        if m.alive && m.letter_index == y {
            assert(ns[n].alive && ns[n].letter_index == y);
        }
    }
    assert forall|k: int| 0 <= k < n + 1 implies #[trigger] label_rule(ns, k) by {
        if k < n {
            assert(ns[k] == ms[k]);
            assert(label_rule(ms, k));
            assert(lit_before(ns, k, ms[k].letter_index as int) == lit_before(ms, k, ms[k].letter_index as int));
        } else {
            assert(ns[k] == m);
            assert(lit_before(ns, n, m.letter_index as int) == lit_before(ms, n, m.letter_index as int));
        }
    }
}

impl LayeredGraph {
    /// The nodes, in the graph's order.
    pub closed spec fn node_seq(self) -> Seq<Node> {
        self.nodes@
    }

    /// The arcs, in the graph's order.
    pub closed spec fn arc_seq(self) -> Seq<Arc> {
        self.arcs@
    }

    /// `n` is an accepting node of the last layer.
    pub closed spec fn is_accepting_node(self, n: Node) -> bool {
        self.is_last(n)
    }

    /// The letter of every arc is in the alphabet.
    pub closed spec fn letters_known(self) -> bool {
        forall|i: int| 0 <= i < self.arcs@.len() ==> self.alphabet@.contains(#[trigger] self.arcs@[i].letter)
    }

    /// Whether the letter of every arc is in the alphabet.
    pub fn arcs_in_alphabet(&self) -> (b: bool)
        ensures
            b == self.letters_known(),
    {
        let mut i: usize = 0;
        while i < self.arcs.len()
            invariant
                i <= self.arcs@.len(),
                forall|k: int| 0 <= k < i ==> self.alphabet@.contains(#[trigger] self.arcs@[k].letter),
            decreases self.arcs@.len() - i,
        {
            if !contains_letter(&self.alphabet, self.arcs[i].letter) {
                return false;
            }
            i = i + 1;
        }
        true
    }

    /// The marks of the nodes: each node with its life and whether it accepts.
    fn node_marks(&self) -> (marks: Vec<NodeMark>)
        requires
            self.wf(),
        ensures
            marks@.len() == self.node_seq().len(),
            forall|j: int| 0 <= j < marks@.len() ==> {
                let m = #[trigger] marks@[j];
                &&& m.node == self.node_seq()[j]
                &&& m.alive == self.node_alive(m.node)
                &&& m.accepting == self.is_accepting_node(m.node)
            },
    {
        let mut nodes: Vec<NodeMark> = Vec::new();
        let mut j: usize = 0;
        while j < self.nodes.len()
            invariant
                self.wf(),
                j <= self.nodes@.len(),
                nodes@.len() == j,
                forall|k: int| 0 <= k < j ==> (#[trigger] nodes@[k]) == (NodeMark {
                    node: self.nodes@[k],
                    alive: self.node_life@[k],
                    accepting: self.is_last(self.nodes@[k]),
                }),
            decreases self.nodes@.len() - j,
        {
            let node = self.nodes[j];
            let accepting = node.layer + 1 == self.layer_count && contains_usize(&self.accepting, node.state);
            nodes.push(NodeMark { node, alive: self.node_life[j], accepting });
            j = j + 1;
        }
        proof {
            assert forall|k: int| 0 <= k < nodes@.len() implies (#[trigger] nodes@[k]).alive == self.node_alive(nodes@[k].node) by {
                if self.node_alive(nodes@[k].node) {
                    let k2 = choose|k2: int| 0 <= k2 < self.nodes@.len() && self.nodes@[k2] == nodes@[k].node
                        && #[trigger] self.node_life@[k2];
                    assert(k2 == k);
                }
            }
        }
        nodes
    }

    /// The marks of the arcs: each arc with its life, the position of its letter
    /// in the alphabet, and whether it is the first living arc of that letter.
    fn arc_marks(&self) -> (marks: Vec<ArcMark>)
        requires
            self.wf(),
            self.letters_known(),
        ensures
            marks@.len() == self.arc_seq().len(),
            forall|i: int| 0 <= i < marks@.len() ==> {
                let m = #[trigger] marks@[i];
                &&& m.arc == self.arc_seq()[i]
                &&& m.alive == self.arc_alive(m.arc)
                &&& m.letter_index < self.alphabet_seq().len()
                &&& self.alphabet_seq()[m.letter_index as int] == m.arc.letter
                &&& forall|k: int| 0 <= k < m.letter_index ==> self.alphabet_seq()[k] != m.arc.letter
            },
            forall|i: int| 0 <= i < marks@.len() ==> #[trigger] label_rule(marks@, i),
    {
        let mut marked: Vec<bool> = Vec::new();
        let mut x: usize = 0;
        while x < self.alphabet.len()
            invariant
                x <= self.alphabet@.len(),
                marked@.len() == x,
                forall|y: int| 0 <= y < x ==> !(#[trigger] marked@[y]),
            decreases self.alphabet@.len() - x,
        {
            marked.push(false);
            x = x + 1;
        }
        let mut arcs: Vec<ArcMark> = Vec::new();
        let mut i: usize = 0;
        while i < self.arcs.len()
            invariant
                self.wf(),
                self.letters_known(),
                i <= self.arcs@.len(),
                arcs@.len() == i,
                marked@.len() == self.alphabet@.len(),
                forall|y: int| 0 <= y < marked@.len() ==> (#[trigger] marked@[y] <==> lit_before(arcs@, i as int, y)),
                forall|k: int| 0 <= k < i ==> #[trigger] label_rule(arcs@, k),
                forall|k: int| 0 <= k < i ==> {
                    let m = #[trigger] arcs@[k];
                    &&& m.arc == self.arcs@[k]
                    &&& m.alive == self.arc_life@[k]
                    &&& m.letter_index < self.alphabet@.len()
                    &&& self.alphabet@[m.letter_index as int] == m.arc.letter
                    &&& forall|t: int| 0 <= t < m.letter_index ==> self.alphabet@[t] != m.arc.letter
                },
            decreases self.arcs@.len() - i,
        {
            let arc = self.arcs[i];
            let alive = self.arc_life[i];
            proof {
                assert(self.alphabet@.contains(self.arcs@[i as int].letter));
            }
            let li = self.letter_index(arc.letter);
            let labelled = alive && !marked[li];
            let m = ArcMark { arc, alive, letter_index: li, labelled };
            let ghost before = marked@;
            proof {
                lemma_mark_pushed(arcs@, m, marked@);
            }
            if labelled {
                marked.set(li, true);
            }
            assert(marked@ == marked_after(before, m));
            arcs.push(m);
            i = i + 1;
        }
        proof {
            assert forall|k: int| 0 <= k < arcs@.len() implies (#[trigger] arcs@[k]).alive == self.arc_alive(arcs@[k].arc) by {
                if self.arc_alive(arcs@[k].arc) {
                    let k2 = choose|k2: int| 0 <= k2 < self.arcs@.len() && self.arcs@[k2] == arcs@[k].arc
                        && #[trigger] self.arc_life@[k2];
                    assert(k2 == k);
                }
            }
        }
        arcs
    }

    /// What the graph is drawn from: each node, with its life and whether it
    /// accepts; then each arc, with its life, the position of its letter in the
    /// alphabet, and whether it is the first living arc of that letter.
    pub fn drawing(&self) -> (marks: (Vec<NodeMark>, Vec<ArcMark>))
        requires
            self.wf(),
            self.letters_known(),
        ensures
            marks.0@.len() == self.node_seq().len(),
            forall|j: int| 0 <= j < marks.0@.len() ==> {
                let m = #[trigger] marks.0@[j];
                &&& m.node == self.node_seq()[j]
                &&& m.alive == self.node_alive(m.node)
                &&& m.accepting == self.is_accepting_node(m.node)
            },
            marks.1@.len() == self.arc_seq().len(),
            forall|i: int| 0 <= i < marks.1@.len() ==> {
                let m = #[trigger] marks.1@[i];
                &&& m.arc == self.arc_seq()[i]
                &&& m.alive == self.arc_alive(m.arc)
                &&& m.letter_index < self.alphabet_seq().len()
                &&& self.alphabet_seq()[m.letter_index as int] == m.arc.letter
                &&& forall|k: int| 0 <= k < m.letter_index ==> self.alphabet_seq()[k] != m.arc.letter
            },
            forall|i: int| 0 <= i < marks.1@.len() ==> #[trigger] label_rule(marks.1@, i),
    {
        (self.node_marks(), self.arc_marks())
    }
}

} // verus!
