//! Pruning: the passes that shrink the graph of a world before it runs.

use crate::blocks::Block;
use crate::edge::{Edge, MAX_POWER};
use crate::graph::{
    detached, graph_edge_endpoints, graph_edge_indices, graph_edge_weight, graph_edges_directed,
    graph_node_indices, graph_node_weight, graph_remove_edge, graph_remove_node, Circuit, Link,
    GRAPH_LIMIT,
};
use crate::merge::{echoes, mergeable};
use crate::siblings::{all_taken_over, all_were_siblings, edges_kept, settled};
use crate::order::{
    ascending, increasing, lemma_increasing_no_duplicates, lemma_lists_is_ascending,
};
use crate::parse::BuildError;
use crate::wires::{
    code, found_first, leads_to, path_end, path_weight, reached_in, recorded, wire_path,
};
use crate::world::{sided, World};
use petgraph::Direction;
use vstd::prelude::*;

verus! {

/// The edges of `edges` that lose less than the largest signal
/// strength: those along which a signal can arrive at all.
pub open spec fn short_edges(edges: Map<u32, Link>) -> Map<u32, Link> {
    edges.restrict(Set::new(|e: u32| edges[e].weight.loss() < MAX_POWER))
}

/// Whether edge `rival` makes edge `e` superfluous: both join the same
/// nodes through the same face, and `rival` loses less, or as much and
/// has the smaller index.
pub open spec fn beats(edges: Map<u32, Link>, rival: u32, e: u32) -> bool {
    &&& edges.contains_key(rival)
    &&& edges.contains_key(e)
    &&& edges[rival].source == edges[e].source
    &&& edges[rival].target == edges[e].target
    &&& edges[rival].weight.side() == edges[e].weight.side()
    &&& (edges[rival].weight.loss() < edges[e].weight.loss() || (edges[rival].weight.loss()
        == edges[e].weight.loss() && rival < e))
}

/// Whether some edge makes edge `e` superfluous.
pub open spec fn beaten(edges: Map<u32, Link>, e: u32) -> bool {
    exists|rival: u32| beats(edges, rival, e)
}

/// The edges of `edges` that no other makes superfluous: of the edges
/// that join the same nodes through the same face, the one that loses
/// least, and of several such the one with the smallest index.
pub open spec fn best_edges(edges: Map<u32, Link>) -> Map<u32, Link> {
    edges.restrict(Set::new(|e: u32| !beaten(edges, e)))
}

/// Whether no two edges of `edges` join the same nodes through the same
/// face.
pub open spec fn no_parallel_edges(edges: Map<u32, Link>) -> bool {
    forall|a: u32, b: u32|
        #![trigger edges[a], edges[b]]
        edges.contains_key(a) && edges.contains_key(b) && edges[a].source == edges[b].source
            && edges[a].target == edges[b].target && edges[a].weight.side()
            == edges[b].weight.side() ==> a == b
}

/// Whether every edge of `edges` loses less than the largest signal
/// strength.
pub open spec fn all_short(edges: Map<u32, Link>) -> bool {
    forall|e: u32| #[trigger] edges.contains_key(e) ==> edges[e].weight.loss() < MAX_POWER
}

/// Of the edges that join the same nodes through the same face, the
/// best edges hold exactly one.
pub proof fn lemma_best_edges_unique(edges: Map<u32, Link>)
    ensures
        no_parallel_edges(best_edges(edges)),
{
    let best = best_edges(edges);
    assert forall|a: u32, b: u32|
        #![trigger best[a], best[b]]
        best.contains_key(a) && best.contains_key(b) && best[a].source == best[b].source
            && best[a].target == best[b].target && best[a].weight.side()
            == best[b].weight.side() implies a == b by {
        if a != b {
            if edges[a].weight.loss() < edges[b].weight.loss() || (edges[a].weight.loss()
                == edges[b].weight.loss() && a < b) {
                assert(beats(edges, a, b));
            } else {
                assert(beats(edges, b, a));
            }
        }
    }
}

/// Taking edges away from a well-formed circuit leaves it well formed,
/// with its side edges where they may be.
pub proof fn lemma_fewer_edges(c: Circuit, d: Circuit)
    requires
        c.wf(),
        sided(c),
        d.nodes == c.nodes,
        d.edges.dom().subset_of(c.edges.dom()),
        forall|e: u32| #[trigger] d.edges.contains_key(e) ==> d.edges[e] == c.edges[e],
    ensures
        d.wf(),
        sided(d),
{
    vstd::set_lib::lemma_len_subset(d.edges.dom(), c.edges.dom());
    assert forall|e: u32| #[trigger] d.edges.contains_key(e) implies d.nodes.contains_key(
        d.edges[e].source,
    ) && d.nodes.contains_key(d.edges[e].target) && d.edges[e].weight.wf() by {
        assert(c.edges.contains_key(e));
    }
    assert forall|e: u32| #[trigger]
        d.edges.contains_key(e) && d.edges[e].weight.side() implies (
    d.nodes[d.edges[e].target] is Repeater || d.nodes[d.edges[e].target] is Comparator) by {
        assert(c.edges.contains_key(e));
    }
}

/// Whether `n` is one of the first `i` items of the list.
pub open spec fn among_first(ids: Seq<u32>, i: int, n: u32) -> bool {
    exists|j: int| 0 <= j < i && j < ids.len() && ids[j] == n
}

/// Whether no edge of the circuit starts or ends at `n`.
pub open spec fn isolated(c: Circuit, n: u32) -> bool {
    forall|e: u32| #[trigger]
        c.edges.contains_key(e) ==> c.edges[e].source != n && c.edges[e].target != n
}

/// The circuit without node `n` and the edges that start or end at it.
pub open spec fn without_node(c: Circuit, n: u32) -> Circuit {
    Circuit { nodes: c.nodes.remove(n), edges: detached(c.edges, n) }
}

/// Taking a node away from a well-formed circuit, with its edges,
/// leaves the circuit well formed, with its side edges where they may
/// be.
pub proof fn lemma_without_node(c: Circuit, n: u32)
    requires
        c.wf(),
        sided(c),
    ensures
        without_node(c, n).wf(),
        sided(without_node(c, n)),
        isolated(c, n) ==> without_node(c, n).edges == c.edges,
{
    let d = without_node(c, n);
    assert(d.edges.dom().subset_of(c.edges.dom()));
    vstd::set_lib::lemma_len_subset(d.edges.dom(), c.edges.dom());
    assert(d.nodes.dom().subset_of(c.nodes.dom()));
    vstd::set_lib::lemma_len_subset(d.nodes.dom(), c.nodes.dom());
    assert forall|e: u32| #[trigger] d.edges.contains_key(e) implies d.nodes.contains_key(
        d.edges[e].source,
    ) && d.nodes.contains_key(d.edges[e].target) && d.edges[e].weight.wf() by {
        assert(c.edges.contains_key(e));
    }
    assert forall|e: u32| #[trigger]
        d.edges.contains_key(e) && d.edges[e].weight.side() implies (
    d.nodes[d.edges[e].target] is Repeater || d.nodes[d.edges[e].target] is Comparator) by {
        assert(c.edges.contains_key(e));
    }
    if isolated(c, n) {
        assert forall|e: u32| c.edges.contains_key(e) implies d.edges.contains_key(e) by {
            assert(c.edges[e].source != n && c.edges[e].target != n);
        }
        assert(d.edges =~= c.edges);
    }
}

/// An edge that a walk through wire has found: from the node that feeds
/// the wire to a node at which the wire ends.
#[derive(Debug, Clone, Copy, PartialEq, Eq, Structural)]
pub struct Shortcut {
    pub source: u32,
    pub target: u32,
    pub weight: Edge,
}

/// Whether two shortcuts join the same nodes through the same face.
pub open spec fn twins(a: Shortcut, b: Shortcut) -> bool {
    a.source == b.source && a.target == b.target && a.weight.side() == b.weight.side()
}

/// Whether no two of the shortcuts join the same nodes through the same
/// face.
pub open spec fn distinct(found: Seq<Shortcut>) -> bool {
    forall|a: int, b: int|
        0 <= a < b < found.len() ==> !twins(#[trigger] found[a], #[trigger] found[b])
}

/// The item at place `i` of a strictly increasing list is at least `i`.
pub proof fn lemma_increasing_bound(s: Seq<u32>, i: int)
    requires
        increasing(s),
        0 <= i < s.len(),
    ensures
        s[i] >= i,
    decreases i,
{
    if i > 0 {
        lemma_increasing_bound(s, i - 1);
        assert(s[i - 1] < s[i]);
    }
}

/// The shortcut that an edge is.
pub open spec fn shortcut_of(l: Link) -> Shortcut {
    Shortcut { source: l.source, target: l.target, weight: l.weight }
}

/// The edge that a shortcut becomes.
pub open spec fn link_of(s: Shortcut) -> Link {
    Link { source: s.source, target: s.target, weight: s.weight }
}

/// Whether `link` is the edge of one of the first `upto` shortcuts.
pub open spec fn from_found(found: Seq<Shortcut>, upto: int, link: Link) -> bool {
    exists|a: int| 0 <= a < upto && a < found.len() && link_of(found[a]) == link
}

/// Whether `one` and `other` are the edges of two different of the
/// first `upto` shortcuts.
pub open spec fn from_places(found: Seq<Shortcut>, upto: int, one: Link, other: Link) -> bool {
    exists|a: int, b: int|
        0 <= a < upto && 0 <= b < upto && a < found.len() && b < found.len() && a != b
            && #[trigger] link_of(found[a]) == one && #[trigger] link_of(found[b]) == other
}

/// Whether `after` holds `link` under an index that `before` lacks.
pub open spec fn added(before: Map<u32, Link>, after: Map<u32, Link>, link: Link) -> bool {
    exists|e: u32| after.contains_key(e) && !before.contains_key(e) && after[e] == link
}

/// Whether `after` holds, under an index that `before` lacks, an edge
/// from `source` to `target` that enters through the face `side`.
pub open spec fn shortcut_in(
    before: Map<u32, Link>,
    after: Map<u32, Link>,
    source: u32,
    target: u32,
    side: bool,
) -> bool {
    exists|e: u32|
        after.contains_key(e) && !before.contains_key(e) && after[e].source == source
            && after[e].target == target && after[e].weight.side() == side
}

impl World {
    /// Whether `other` differs from this world in its edges only.
    pub open spec fn same_but_edges(&self, other: &World) -> bool {
        &&& self.circuit().nodes == other.circuit().nodes
        &&& self.probes == other.probes
        &&& self.triggers == other.triggers
        &&& self.constants == other.constants
        &&& self.updatable == other.updatable
        &&& self.tick_counter == other.tick_counter
    }

    /// Takes the edges in `doomed` out of the graph.
    fn remove_edges(&mut self, doomed: &Vec<u32>)
        requires
            old(self).wf(),
        ensures
            final(self).wf(),
            old(self).same_but_edges(final(self)),
            final(self).circuit().edges == old(self).circuit().edges.remove_keys(doomed@.to_set()),
    {
        let ghost c0 = self.circuit();
        let mut i: usize = 0;
        while i < doomed.len()
            invariant
                i <= doomed.len(),
                c0 == old(self).circuit(),
                c0.wf(),
                sided(c0),
                old(self).wf(),
                old(self).same_but_edges(self),
                self.circuit().edges == c0.edges.remove_keys(doomed@.take(i as int).to_set()),
            decreases doomed.len() - i,
        {
            let ghost before = self.circuit().edges;
            graph_remove_edge(&mut self.blocks, doomed[i]);
            i = i + 1;
            proof {
                let part = doomed@.take(i as int);
                let prev = doomed@.take(i - 1);
                assert(part =~= prev.push(doomed@[i - 1]));
                assert forall|e: u32| part.to_set().contains(e) <==> (prev.to_set().contains(e)
                    || e == doomed@[i - 1]) by {
                    if part.to_set().contains(e) {
                        let j = choose|j: int| 0 <= j < part.len() && part[j] == e;
                        if j < i - 1 {
                            assert(prev[j] == e);
                        }
                    }
                    if prev.to_set().contains(e) {
                        let j = choose|j: int| 0 <= j < prev.len() && prev[j] == e;
                        assert(part[j] == e);
                    }
                    if e == doomed@[i - 1] {
                        assert(part[i - 1] == e);
                    }
                }
                assert(self.circuit().edges =~= c0.edges.remove_keys(part.to_set()));
            }
        }
        proof {
            assert(doomed@.take(doomed@.len() as int) =~= doomed@);
            lemma_fewer_edges(c0, self.circuit());
            assert forall|n: u32| #[trigger] self.registered(n)
                implies self.circuit().nodes.contains_key(
            n) && self.circuit().nodes[n] is Redstone by {
                assert(old(self).registered(n));
            }
            assert forall|n: u32| #[trigger] self.is_constant(n)
                implies self.circuit().nodes[n] == crate::blocks::source_block() by {
                assert(old(self).is_constant(n));
                assert(old(self).registered(n));
                assert(old(self).circuit().nodes[n] == crate::blocks::source_block());
            }
        }
    }

    /// Removes every edge that loses the largest signal strength or
    /// more: no signal arrives along it.
    pub fn prune_too_long_edges(&mut self)
        requires
            old(self).wf(),
        ensures
            final(self).wf(),
            old(self).same_but_edges(final(self)),
            final(self).circuit().edges == short_edges(old(self).circuit().edges),
            all_short(final(self).circuit().edges),
    {
        let ghost c0 = self.circuit();
        let ids = graph_edge_indices(&self.blocks);
        let mut doomed: Vec<u32> = Vec::new();
        let mut i: usize = 0;
        while i < ids.len()
            invariant
                i <= ids.len(),
                c0 == self.circuit(),
                forall|k: u32| ids@.contains(k) <==> c0.edges.contains_key(k),
                forall|k: u32|
                    doomed@.contains(k) <==> (exists|j: int|
                        0 <= j < i && ids@[j] == k && c0.edges[k].weight.loss() >= MAX_POWER),
            decreases ids.len() - i,
        {
            let e = ids[i];
            assert(ids@.contains(e));
            let weight = graph_edge_weight(&self.blocks, e).unwrap();
            let ghost before = doomed@;
            if weight.strength_loss() >= MAX_POWER {
                doomed.push(e);
            }
            proof {
                assert forall|k: u32|
                    doomed@.contains(k) <==> (exists|j: int|
                        0 <= j < i + 1 && ids@[j] == k && c0.edges[k].weight.loss()
                            >= MAX_POWER) by {
                    if doomed@.contains(k) {
                        let a = choose|a: int| 0 <= a < doomed@.len() && doomed@[a] == k;
                        if a < before.len() {
                            assert(before[a] == k);
                            assert(before.contains(k));
                            let j = choose|j: int|
                                0 <= j < i && ids@[j] == k && c0.edges[k].weight.loss()
                                    >= MAX_POWER;
                            assert(0 <= j < i + 1 && ids@[j] == k);
                        } else {
                            assert(ids@[i as int] == k);
                        }
                    }
                    if exists|j: int|
                        0 <= j < i + 1 && ids@[j] == k && c0.edges[k].weight.loss() >= MAX_POWER {
                        let j = choose|j: int|
                            0 <= j < i + 1 && ids@[j] == k && c0.edges[k].weight.loss()
                                >= MAX_POWER;
                        if j < i {
                            assert(before.contains(k));
                            let a = choose|a: int| 0 <= a < before.len() && before[a] == k;
                            assert(doomed@[a] == k);
                        } else {
                            assert(doomed@[doomed@.len() - 1] == k);
                        }
                    }
                }
            }
            i = i + 1;
        }
        self.remove_edges(&doomed);
        proof {
            let fin = self.circuit().edges;
            assert forall|k: u32| fin.contains_key(k) <==> short_edges(c0.edges).contains_key(
                k,
            ) by {
                if c0.edges.contains_key(k) {
                    assert(ids@.contains(k));
                    let j = choose|j: int| 0 <= j < ids@.len() && ids@[j] == k;
                    if c0.edges[k].weight.loss() >= MAX_POWER {
                        assert(doomed@.contains(k));
                    }
                }
            }
            assert(fin =~= short_edges(c0.edges));
        }
    }

    /// Whether one of the edges in `rivals` makes edge `e` superfluous.
    fn has_rival(&self, e: u32, source: u32, target: u32, weight: Edge, rivals: &Vec<u32>) -> (r:
        bool)
        requires
            self.circuit().edges.contains_key(e),
            self.circuit().edges[e] == (Link { source, target, weight }),
            forall|k: u32|
                rivals@.contains(k) <==> (self.circuit().edges.contains_key(k)
                    && self.circuit().edges[k].source == source),
        ensures
            r == beaten(self.circuit().edges, e),
    {
        let ghost edges = self.circuit().edges;
        let mut j: usize = 0;
        while j < rivals.len()
            invariant
                j <= rivals.len(),
                edges == self.circuit().edges,
                edges.contains_key(e),
                edges[e] == (Link { source, target, weight }),
                forall|k: u32|
                    rivals@.contains(k) <==> (edges.contains_key(k) && edges[k].source == source),
                forall|a: int| 0 <= a < j ==> !beats(edges, rivals@[a], e),
            decreases rivals.len() - j,
        {
            let rival = rivals[j];
            assert(rivals@.contains(rival));
            let ends = graph_edge_endpoints(&self.blocks, rival).unwrap();
            let other = graph_edge_weight(&self.blocks, rival).unwrap();
            if ends.1 == target && other.is_side() == weight.is_side() && (other.strength_loss()
                < weight.strength_loss() || (other.strength_loss() == weight.strength_loss()
                && rival < e)) {
                assert(beats(edges, rival, e));
                return true;
            }
            j = j + 1;
        }
        proof {
            if beaten(edges, e) {
                let rival = choose|rival: u32| beats(edges, rival, e);
                assert(rivals@.contains(rival));
                let a = choose|a: int| 0 <= a < rivals@.len() && rivals@[a] == rival;
                assert(!beats(edges, rivals@[a], e));
            }
        }
        false
    }

    /// Of the edges that join the same nodes through the same face,
    /// keeps the one that loses least, and of several such the one with
    /// the smallest index.
    pub fn prune_duplicate_edges(&mut self)
        requires
            old(self).wf(),
        ensures
            final(self).wf(),
            old(self).same_but_edges(final(self)),
            final(self).circuit().edges == best_edges(old(self).circuit().edges),
            no_parallel_edges(final(self).circuit().edges),
    {
        let ghost c0 = self.circuit();
        let ids = graph_edge_indices(&self.blocks);
        let mut doomed: Vec<u32> = Vec::new();
        let mut i: usize = 0;
        while i < ids.len()
            invariant
                i <= ids.len(),
                c0 == self.circuit(),
                forall|k: u32| ids@.contains(k) <==> c0.edges.contains_key(k),
                forall|k: u32|
                    doomed@.contains(k) <==> (exists|j: int|
                        0 <= j < i && ids@[j] == k && beaten(c0.edges, k)),
            decreases ids.len() - i,
        {
            let e = ids[i];
            assert(ids@.contains(e));
            let ends = graph_edge_endpoints(&self.blocks, e).unwrap();
            let weight = graph_edge_weight(&self.blocks, e).unwrap();
            let rivals = graph_edges_directed(&self.blocks, ends.0, Direction::Outgoing);
            let ghost before = doomed@;
            if self.has_rival(e, ends.0, ends.1, weight, &rivals) {
                doomed.push(e);
            }
            proof {
                assert forall|k: u32|
                    doomed@.contains(k) <==> (exists|j: int|
                        0 <= j < i + 1 && ids@[j] == k && beaten(c0.edges, k)) by {
                    if doomed@.contains(k) {
                        let a = choose|a: int| 0 <= a < doomed@.len() && doomed@[a] == k;
                        if a < before.len() {
                            assert(before[a] == k);
                            assert(before.contains(k));
                            let j = choose|j: int|
                                0 <= j < i && ids@[j] == k && beaten(c0.edges, k);
                            assert(0 <= j < i + 1 && ids@[j] == k);
                        } else {
                            assert(ids@[i as int] == k);
                        }
                    }
                    if exists|j: int| 0 <= j < i + 1 && ids@[j] == k && beaten(c0.edges, k) {
                        let j = choose|j: int|
                            0 <= j < i + 1 && ids@[j] == k && beaten(c0.edges, k);
                        if j < i {
                            assert(before.contains(k));
                            let a = choose|a: int| 0 <= a < before.len() && before[a] == k;
                            assert(doomed@[a] == k);
                        } else {
                            assert(doomed@[doomed@.len() - 1] == k);
                        }
                    }
                }
            }
            i = i + 1;
        }
        self.remove_edges(&doomed);
        proof {
            let fin = self.circuit().edges;
            assert forall|k: u32| fin.contains_key(k) <==> best_edges(c0.edges).contains_key(
                k,
            ) by {
                if c0.edges.contains_key(k) {
                    assert(ids@.contains(k));
                    let j = choose|j: int| 0 <= j < ids@.len() && ids@[j] == k;
                    if beaten(c0.edges, k) {
                        assert(doomed@.contains(k));
                    }
                }
            }
            assert(fin =~= best_edges(c0.edges));
            lemma_best_edges_unique(c0.edges);
        }
    }
    /// Whether node `n` is dead: nothing starts or ends at it, and it is
    /// neither registered nor a torch nor a comparator.
    pub open spec fn dead(&self, n: u32) -> bool {
        &&& self.circuit().nodes.contains_key(n)
        &&& isolated(self.circuit(), n)
        &&& !self.registered(n)
        &&& !(self.circuit().nodes[n] is Torch)
        &&& !(self.circuit().nodes[n] is Comparator)
    }

    /// Whether `other` differs from this world in its graph only.
    pub open spec fn same_but_graph(&self, other: &World) -> bool {
        &&& self.probes == other.probes
        &&& self.triggers == other.triggers
        &&& self.constants == other.constants
        &&& self.updatable == other.updatable
        &&& self.tick_counter == other.tick_counter
    }

    /// Whether node `n` is registered.
    pub fn is_registered(&self, n: u32) -> (r: bool)
        ensures
            r == self.registered(n),
    {
        self.probes.contains_node(n) || self.triggers.contains_node(n) || self.holds_constant(n)
    }

    /// Whether node `n` is dead.
    fn is_dead(&self, n: u32) -> (r: bool)
        requires
            self.circuit().nodes.contains_key(n),
        ensures
            r == self.dead(n),
    {
        let c = Ghost(self.circuit());
        let out = graph_edges_directed(&self.blocks, n, Direction::Outgoing);
        let inc = graph_edges_directed(&self.blocks, n, Direction::Incoming);
        proof {
            if out@.len() > 0 {
                assert(out@.contains(out@[0]));
            }
            if inc@.len() > 0 {
                assert(inc@.contains(inc@[0]));
            }
            if out@.len() == 0 && inc@.len() == 0 {
                assert forall|e: u32| #[trigger] c@.edges.contains_key(e) implies c@.edges[e].source
                    != n && c@.edges[e].target != n by {
                    if c@.edges[e].source == n {
                        assert(out@.contains(e));
                    }
                    if c@.edges[e].target == n {
                        assert(inc@.contains(e));
                    }
                }
            }
        }
        if out.len() > 0 || inc.len() > 0 {
            return false;
        }
        if self.is_registered(n) {
            return false;
        }
        match graph_node_weight(&self.blocks, n) {
            Some(Block::Torch(_)) => false,
            Some(Block::Comparator(_)) => false,
            _ => true,
        }
    }

    /// Removes the nodes that are dead.
    fn sweep_dead_nodes(&mut self)
        requires
            old(self).wf(),
        ensures
            final(self).wf(),
            old(self).same_but_graph(final(self)),
            final(self).circuit().edges == old(self).circuit().edges,
            final(self).circuit().nodes == old(self).circuit().nodes.remove_keys(
                Set::new(|n: u32| old(self).dead(n)),
            ),
    {
        let ghost c0 = self.circuit();
        let ids = graph_node_indices(&self.blocks);
        proof {
            lemma_increasing_no_duplicates(ids@);
        }
        let mut i: usize = 0;
        while i < ids.len()
            invariant
                i <= ids.len(),
                c0 == old(self).circuit(),
                old(self).wf(),
                self.wf(),
                old(self).same_but_graph(self),
                self.circuit().edges == c0.edges,
                forall|k: u32| ids@.contains(k) <==> c0.nodes.contains_key(k),
                ids@.no_duplicates(),
                forall|n: u32|
                    #![trigger self.circuit().nodes.contains_key(n)]
                    self.circuit().nodes.contains_key(n) <==> (c0.nodes.contains_key(n) && !(
                    old(self).dead(n) && among_first(ids@, i as int, n))),
                forall|n: u32| #[trigger]
                    self.circuit().nodes.contains_key(n) ==> self.circuit().nodes[n] == c0.nodes[n],
            decreases ids.len() - i,
        {
            let n = ids[i];
            assert(ids@.contains(n));
            let ghost before = *self;
            assert(!among_first(ids@, i as int, n)) by {
                if among_first(ids@, i as int, n) {
                    let j = choose|j: int| 0 <= j < i && ids@[j] == n;
                    assert(ids@[j] == ids@[i as int]);
                }
            }
            assert(self.circuit().nodes.contains_key(n));
            assert(self.dead(n) == old(self).dead(n)) by {
                assert(self.registered(n) == old(self).registered(n));
            }
            if self.is_dead(n) {
                graph_remove_node(&mut self.blocks, n);
                proof {
                    lemma_without_node(before.circuit(), n);
                    assert(self.circuit() == without_node(before.circuit(), n));
                    assert forall|m: u32| #[trigger] self.registered(m)
                        implies self.circuit().nodes.contains_key(
                    m) && self.circuit().nodes[m] is Redstone by {
                        assert(before.registered(m));
                    }
                    assert forall|m: u32| #[trigger] self.is_constant(m)
                        implies self.circuit().nodes[m] == crate::blocks::source_block() by {
                        assert(before.is_constant(m));
                        assert(before.registered(m));
                        assert(before.circuit().nodes[m] == crate::blocks::source_block());
                    }
                }
            }
            proof {
                assert forall|m: u32|
                    #![trigger self.circuit().nodes.contains_key(m)]
                    self.circuit().nodes.contains_key(m) <==> (c0.nodes.contains_key(m) && !(
                    old(self).dead(m) && among_first(ids@, i + 1, m))) by {
                    if among_first(ids@, i + 1, m) {
                        let j = choose|j: int| 0 <= j < i + 1 && ids@[j] == m;
                        if j < i {
                            assert(among_first(ids@, i as int, m));
                        }
                    }
                    if among_first(ids@, i as int, m) {
                        let j = choose|j: int| 0 <= j < i && ids@[j] == m;
                        assert(0 <= j < i + 1 && ids@[j] == m);
                    }
                    if m == n {
                        assert(0 <= i < i + 1 && ids@[i as int] == m);
                        assert(among_first(ids@, i + 1, m));
                    }
                }
            }
            i = i + 1;
        }
        proof {
            let goal = c0.nodes.remove_keys(Set::new(|n: u32| old(self).dead(n)));
            assert forall|n: u32| self.circuit().nodes.contains_key(n) <==> goal.contains_key(
                n,
            ) by {
                if c0.nodes.contains_key(n) {
                    assert(ids@.contains(n));
                    let j = choose|j: int| 0 <= j < ids@.len() && ids@[j] == n;
                    assert(among_first(ids@, i as int, n));
                }
            }
            assert(self.circuit().nodes =~= goal);
        }
    }

    /// Removes the dead nodes: those that nothing starts or ends at and
    /// that are neither registered nor a torch nor a comparator. Runs
    /// until a pass removes nothing.
    pub fn prune_dead_nodes(&mut self)
        requires
            old(self).wf(),
        ensures
            final(self).wf(),
            old(self).same_but_graph(final(self)),
            final(self).circuit().edges == old(self).circuit().edges,
            final(self).circuit().nodes == old(self).circuit().nodes.remove_keys(
                Set::new(|n: u32| old(self).dead(n)),
            ),
            forall|n: u32| !final(self).dead(n),
    {
        let ghost goal = old(self).circuit().nodes.remove_keys(
            Set::new(|n: u32| old(self).dead(n)),
        );
        let mut first = true;
        loop
            invariant
                old(self).wf(),
                self.wf(),
                old(self).same_but_graph(self),
                self.circuit().edges == old(self).circuit().edges,
                first ==> self.circuit().nodes == old(self).circuit().nodes,
                !first ==> self.circuit().nodes == goal,
                goal == old(self).circuit().nodes.remove_keys(Set::new(|n: u32| old(self).dead(n))),
            ensures
                self.wf(),
                old(self).same_but_graph(self),
                self.circuit().edges == old(self).circuit().edges,
                self.circuit().nodes == goal,
                forall|n: u32| !self.dead(n),
            decreases self.circuit().nodes.dom().len(), first as int,
        {
            let count = self.node_count();
            let ghost before = *self;
            self.sweep_dead_nodes();
            proof {
                let gone = Set::new(|n: u32| before.dead(n));
                assert forall|n: u32| !self.dead(n) by {
                    if self.dead(n) {
                        assert(self.registered(n) == before.registered(n));
                        assert(before.dead(n));
                        assert(gone.contains(n));
                    }
                }
                if first {
                    assert(before.circuit() == old(self).circuit());
                    assert forall|n: u32| before.dead(n) == old(self).dead(n) by {
                        assert(before.registered(n) == old(self).registered(n));
                    }
                    assert(gone =~= Set::new(|n: u32| old(self).dead(n)));
                } else {
                    assert forall|n: u32| !before.dead(n) by {
                        if before.dead(n) {
                            assert(before.registered(n) == old(self).registered(n));
                            assert(old(self).dead(n));
                        }
                    }
                    assert(self.circuit().nodes =~= before.circuit().nodes);
                }
                assert(self.circuit().nodes.dom().subset_of(before.circuit().nodes.dom()));
                vstd::set_lib::lemma_len_subset(
                    self.circuit().nodes.dom(),
                    before.circuit().nodes.dom(),
                );
            }
            first = false;
            if count == self.node_count() {
                break;
            }
        }
    }
    /// Whether node `n` is plain wire: a wire node that is not
    /// registered.
    pub open spec fn wire(&self, n: u32) -> bool {
        &&& self.circuit().nodes.contains_key(n)
        &&& self.circuit().nodes[n] is Redstone
        &&& !self.registered(n)
    }

    /// One more than the largest index of a node, or 0 in a world
    /// without nodes.
    pub open spec fn span(&self) -> nat {
        let ids = ascending(self.circuit().nodes.dom());
        if ids.len() == 0 {
            0
        } else {
            (ids.last() + 1) as nat
        }
    }

    /// Whether the marks of a walk can be held: two for each node
    /// index, in a list that a machine can hold.
    pub open spec fn markable(&self) -> bool {
        2 * self.span() <= usize::MAX
    }

    /// The shortcuts that the wire of this world asks for: one for each
    /// node that feeds wire, each node at which a walk through that
    /// wire ends, and each face through which such a walk enters it.
    pub open spec fn shortcuts(&self) -> Set<(u32, u32, bool)> {
        Set::new(
            |x: (u32, u32, bool)|
                self.circuit().nodes.contains_key(x.0) && self.feeds(x.0) && self.ends_walk(x.1)
                    && exists|path: Seq<u32>|
                    #[trigger] leads_to(self.circuit(), path, x.0, x.1, x.2),
        )
    }

    /// Whether the wire of this world can be replaced by edges: the
    /// marks of a walk can be held, and the graph has room for a new
    /// edge for each shortcut.
    pub open spec fn fits(&self) -> bool {
        self.markable() && self.circuit().edges.dom().len() + self.shortcuts().len()
            <= GRAPH_LIMIT
    }

    /// Whether `s` is what a walk through wire finds: its source feeds
    /// wire, and a walk from it leads to its target and has its weight.
    pub open spec fn shortcut_ok(&self, s: Shortcut) -> bool {
        &&& self.circuit().nodes.contains_key(s.source)
        &&& self.feeds(s.source)
        &&& self.walk_end(s.source, (s.target, s.weight))
    }

    /// Whether `found` holds a shortcut from `n` for each node that a
    /// walk from `n` ends at, and for each face through which one does.
    pub open spec fn walks_found(&self, found: Seq<Shortcut>, n: u32) -> bool {
        forall|path: Seq<u32>|
            #![trigger wire_path(self.circuit(), path, n)]
            wire_path(self.circuit(), path, n) && self.ends_walk(path_end(self.circuit(), path))
                ==> exists|a: int|
                0 <= a < found.len() && found[a].source == n && found[a].target == path_end(
                    self.circuit(),
                    path,
                ) && found[a].weight.side() == self.circuit().edges[path.last()].weight.side()
    }

    /// Whether walks through wire start at node `n`.
    fn is_feeder(&self, n: u32) -> (r: bool)
        requires
            self.circuit().nodes.contains_key(n),
        ensures
            r == self.feeds(n),
    {
        match graph_node_weight(&self.blocks, n) {
            Some(Block::Redstone(_)) => self.triggers.contains_node(n) || self.holds_constant(n),
            _ => true,
        }
    }

    /// Walks through the wire that each node feeds and returns what the
    /// walks find, unless the marks of a walk cannot be held.
    fn all_wire_ends(&self) -> (r: Option<Vec<Shortcut>>)
        requires
            self.wf(),
        ensures
            r is Some == self.markable(),
            r matches Some(found) ==> {
                &&& forall|a: int| 0 <= a < found@.len() ==> self.shortcut_ok(#[trigger] found@[a])
                &&& forall|n: u32|
                    self.circuit().nodes.contains_key(n) && self.feeds(n)
                        ==> #[trigger] self.walks_found(found@, n)
                &&& distinct(found@)
            },
    {
        let ghost c = self.circuit();
        let ids = graph_node_indices(&self.blocks);
        let mut found: Vec<Shortcut> = Vec::new();
        proof {
            lemma_lists_is_ascending(ids@, c.nodes.dom());
            lemma_increasing_no_duplicates(ids@);
        }
        if ids.len() == 0 {
            assert forall|n: u32| c.nodes.contains_key(n) implies false by {
                assert(ids@.contains(n));
            }
            return Some(found);
        }
        let last = ids[ids.len() - 1];
        if (last as u64 + 1) * 2 > usize::MAX as u64 {
            return None;
        }
        let width: usize = 2 * (last as usize + 1);
        let mut seen: Vec<bool> = Vec::new();
        let mut w: usize = 0;
        while w < width
            invariant
                w <= width,
                seen@.len() == w,
                forall|i: int| 0 <= i < w ==> !seen@[i],
            decreases width - w,
        {
            seen.push(false);
            w = w + 1;
        }
        proof {
            assert forall|n: u32| #[trigger] c.nodes.contains_key(n) implies code(n, true)
                < width by {
                assert(ids@.contains(n));
                let j = choose|j: int| 0 <= j < ids@.len() && ids@[j] == n;
                if j < ids@.len() - 1 {
                    assert(ids@[j] < ids@[ids@.len() - 1]);
                }
            }
        }
        let mut i: usize = 0;
        while i < ids.len()
            invariant
                i <= ids@.len(),
                self.wf(),
                c == self.circuit(),
                ids@.no_duplicates(),
                forall|k: u32| ids@.contains(k) <==> c.nodes.contains_key(k),
                seen@.len() == width,
                forall|j: int| 0 <= j < width ==> !seen@[j],
                forall|n: u32| #[trigger] c.nodes.contains_key(n) ==> code(n, true) < width,
                forall|a: int| 0 <= a < found@.len() ==> self.shortcut_ok(#[trigger] found@[a]),
                forall|a: int|
                    0 <= a < found@.len() ==> among_first(
                        ids@,
                        i as int,
                        (#[trigger] found@[a]).source,
                    ),
                distinct(found@),
                forall|j: int|
                    0 <= j < i && self.feeds(ids@[j]) ==> #[trigger] self.walks_found(
                        found@,
                        ids@[j],
                    ),
            decreases ids@.len() - i,
        {
            let node = ids[i];
            assert(ids@.contains(node));
            let ghost found0 = found@;
            proof {
                assert(!among_first(ids@, i as int, node)) by {
                    if among_first(ids@, i as int, node) {
                        let j = choose|j: int| 0 <= j < i && j < ids@.len() && ids@[j] == node;
                        assert(ids@[j] == ids@[i as int]);
                    }
                }
                assert forall|a: int| 0 <= a < found0.len() implies among_first(
                    ids@,
                    i + 1,
                    (#[trigger] found0[a]).source,
                ) by {
                    let j = choose|j: int|
                        0 <= j < i && j < ids@.len() && ids@[j] == found0[a].source;
                    assert(0 <= j < i + 1 && ids@[j] == found0[a].source);
                }
            }
            if self.is_feeder(node) {
                let ends = self.wire_ends(node, &mut seen);
                let mut k: usize = 0;
                while k < ends.len()
                    invariant
                        k <= ends@.len(),
                        found@.len() == found0.len() + k,
                        forall|a: int| 0 <= a < found0.len() ==> found@[a] == found0[a],
                        forall|a: int|
                            0 <= a < k ==> #[trigger] found@[found0.len() + a] == (Shortcut {
                                source: node,
                                target: ends@[a].0,
                                weight: ends@[a].1,
                            }),
                    decreases ends@.len() - k,
                {
                    found.push(Shortcut { source: node, target: ends[k].0, weight: ends[k].1 });
                    k = k + 1;
                }
                proof {
                    assert forall|a: int| 0 <= a < found@.len() implies self.shortcut_ok(
                        #[trigger] found@[a],
                    ) by {
                        if a < found0.len() {
                            assert(found@[a] == found0[a]);
                        } else {
                            let b = a - found0.len();
                            assert(found@[found0.len() + b].source == node);
                            assert(self.walk_end(node, ends@[b]));
                        }
                    }
                    assert forall|a: int| 0 <= a < found@.len() implies among_first(
                        ids@,
                        i + 1,
                        (#[trigger] found@[a]).source,
                    ) by {
                        if a < found0.len() {
                            assert(found@[a] == found0[a]);
                        } else {
                            let b = a - found0.len();
                            assert(found@[found0.len() + b].source == node);
                            assert(0 <= i < i + 1 && ids@[i as int] == node);
                        }
                    }
                    assert forall|a: int, b: int| 0 <= a < b < found@.len() implies !twins(
                        #[trigger] found@[a],
                        #[trigger] found@[b],
                    ) by {
                        if b < found0.len() {
                            assert(found@[a] == found0[a] && found@[b] == found0[b]);
                        } else if a < found0.len() {
                            assert(found@[a] == found0[a]);
                            assert(among_first(ids@, i as int, found0[a].source));
                            let y = b - found0.len();
                            assert(found@[found0.len() + y].source == node);
                        } else {
                            let x = a - found0.len();
                            let y = b - found0.len();
                            assert(found@[found0.len() + x].target == ends@[x].0);
                            assert(found@[found0.len() + y].target == ends@[y].0);
                            assert(!(ends@[x].0 == ends@[y].0 && ends@[x].1.side()
                                == ends@[y].1.side()));
                        }
                    }
                    assert forall|j: int| 0 <= j < i + 1 && self.feeds(ids@[j])
                        implies #[trigger] self.walks_found(found@, ids@[j]) by {
                        let n = ids@[j];
                        assert forall|path: Seq<u32>|
                            #![trigger wire_path(c, path, n)]
                            wire_path(c, path, n) && self.ends_walk(
                                path_end(c, path),
                            ) implies exists|a: int|
                            0 <= a < found@.len() && found@[a].source == n && found@[a].target
                                == path_end(c, path) && found@[a].weight.side()
                                == c.edges[path.last()].weight.side() by {
                            if j < i {
                                assert(self.walks_found(found0, n));
                                let a = choose|a: int|
                                    0 <= a < found0.len() && found0[a].source == n
                                        && found0[a].target == path_end(c, path)
                                        && found0[a].weight.side()
                                        == c.edges[path.last()].weight.side();
                                assert(found@[a] == found0[a]);
                            } else {
                                assert(recorded(
                                    ends@,
                                    path_end(c, path),
                                    c.edges[path.last()].weight.side(),
                                ));
                                let b = choose|b: int|
                                    0 <= b < ends@.len() && ends@[b].0 == path_end(c, path)
                                        && ends@[b].1.side()
                                        == c.edges[path.last()].weight.side();
                                assert(found@[found0.len() + b].source == node);
                            }
                        }
                    }
                }
            }
            i = i + 1;
        }
        proof {
            assert forall|n: u32|
                c.nodes.contains_key(n) && self.feeds(n)
                    implies #[trigger] self.walks_found(found@, n) by {
                assert(ids@.contains(n));
                let j = choose|j: int| 0 <= j < ids@.len() && ids@[j] == n;
                assert(self.walks_found(found@, ids@[j]));
            }
        }
        Some(found)
    }

    /// There are as many shortcuts as walks have found, when they have
    /// found each once.
    pub proof fn lemma_found_count(&self, found: Seq<Shortcut>)
        requires
            self.wf(),
            forall|a: int| 0 <= a < found.len() ==> self.shortcut_ok(#[trigger] found[a]),
            forall|n: u32|
                self.circuit().nodes.contains_key(n) && self.feeds(n)
                    ==> #[trigger] self.walks_found(found, n),
            distinct(found),
        ensures
            self.shortcuts().finite(),
            self.shortcuts().len() == found.len(),
    {
        let c = self.circuit();
        let triples = found.map_values(|s: Shortcut| (s.source, s.target, s.weight.side()));
        assert(triples.no_duplicates()) by {
            assert forall|i: int, j: int|
                0 <= i < triples.len() && 0 <= j < triples.len() && i != j implies triples[i]
                != triples[j] by {
                if i < j {
                    assert(!twins(found[i], found[j]));
                } else {
                    assert(!twins(found[j], found[i]));
                }
            }
        }
        assert forall|x: (u32, u32, bool)| triples.to_set().contains(x)
            <==> self.shortcuts().contains(x) by {
            if triples.to_set().contains(x) {
                let a = choose|a: int| 0 <= a < triples.len() && triples[a] == x;
                let s = found[a];
                assert(self.shortcut_ok(s));
                assert(found_first(c, s.source, s.target, s.weight));
                let len = choose|len: nat| #[trigger] reached_in(c, s.source, s.target, s.weight,
                    len);
                let path = choose|path: Seq<u32>|
                    wire_path(c, path, s.source) && path_end(c, path) == s.target
                        && path_weight(c, path) == s.weight && path.len() == len;
                assert(path_weight(c, path) == path_weight(c, path.drop_last()).join(
                    c.edges[path.last()].weight,
                ));
                assert(leads_to(c, path, x.0, x.1, x.2));
            }
            if self.shortcuts().contains(x) {
                let path = choose|path: Seq<u32>| #[trigger] leads_to(c, path, x.0, x.1, x.2);
                assert(wire_path(c, path, x.0));
                assert(self.walks_found(found, x.0));
                let a = choose|a: int|
                    0 <= a < found.len() && found[a].source == x.0 && found[a].target
                        == path_end(c, path) && found[a].weight.side()
                        == c.edges[path.last()].weight.side();
                assert(triples[a] == x);
            }
        }
        assert(triples.to_set() =~= self.shortcuts());
        triples.unique_seq_to_set();
        vstd::seq_lib::seq_to_set_is_finite(triples);
    }

    /// Adds an edge to the graph for each shortcut.
    pub(crate) fn add_shortcuts(&mut self, found: &Vec<Shortcut>)
        requires
            old(self).wf(),
            old(self).circuit().edges.dom().len() + found@.len() <= GRAPH_LIMIT,
            forall|a: int|
                0 <= a < found@.len() ==> Self::admits(
                    old(self).circuit(),
                    (#[trigger] found@[a]).source,
                    found@[a].target,
                    found@[a].weight,
                ),
        ensures
            final(self).wf(),
            old(self).same_but_edges(final(self)),
            final(self).circuit().edges.dom().len() == old(self).circuit().edges.dom().len()
                + found@.len(),
            forall|e: u32| #[trigger]
                old(self).circuit().edges.contains_key(e)
                    ==> final(self).circuit().edges.contains_key(e)
                        && final(self).circuit().edges[e] == old(self).circuit().edges[e],
            forall|e: u32| #[trigger]
                final(self).circuit().edges.contains_key(e)
                    && !old(self).circuit().edges.contains_key(e) ==> from_found(
                    found@,
                    found@.len() as int,
                    final(self).circuit().edges[e],
                ),
            forall|a: int|
                0 <= a < found@.len() ==> added(
                    old(self).circuit().edges,
                    final(self).circuit().edges,
                    link_of(#[trigger] found@[a]),
                ),
            forall|e: u32, f: u32|
                #![trigger final(self).circuit().edges[e], final(self).circuit().edges[f]]
                e != f && final(self).circuit().edges.contains_key(e)
                    && !old(self).circuit().edges.contains_key(e)
                    && final(self).circuit().edges.contains_key(f)
                    && !old(self).circuit().edges.contains_key(f) ==> from_places(
                    found@,
                    found@.len() as int,
                    final(self).circuit().edges[e],
                    final(self).circuit().edges[f],
                ),
    {
        let ghost c0 = self.circuit();
        let mut k: usize = 0;
        while k < found.len()
            invariant
                k <= found@.len(),
                c0 == old(self).circuit(),
                self.wf(),
                old(self).same_but_edges(self),
                c0.edges.dom().len() + found@.len() <= GRAPH_LIMIT,
                self.circuit().edges.dom().len() == c0.edges.dom().len() + k,
                forall|a: int|
                    0 <= a < found@.len() ==> Self::admits(
                        c0,
                        (#[trigger] found@[a]).source,
                        found@[a].target,
                        found@[a].weight,
                    ),
                forall|e: u32| #[trigger]
                    c0.edges.contains_key(e) ==> self.circuit().edges.contains_key(e)
                        && self.circuit().edges[e] == c0.edges[e],
                forall|e: u32| #[trigger]
                    self.circuit().edges.contains_key(e) && !c0.edges.contains_key(e)
                        ==> from_found(found@, k as int, self.circuit().edges[e]),
                forall|a: int|
                    0 <= a < k ==> added(c0.edges, self.circuit().edges,
                        link_of(#[trigger] found@[a])),
                forall|e: u32, f: u32|
                    #![trigger self.circuit().edges[e], self.circuit().edges[f]]
                    e != f && self.circuit().edges.contains_key(e) && !c0.edges.contains_key(e)
                        && self.circuit().edges.contains_key(f) && !c0.edges.contains_key(f)
                        ==> from_places(
                        found@,
                        k as int,
                        self.circuit().edges[e],
                        self.circuit().edges[f],
                    ),
            decreases found@.len() - k,
        {
            let ghost before = self.circuit();
            let s = &found[k];
            assert(Self::admits(c0, found@[k as int].source, found@[k as int].target,
                found@[k as int].weight));
            let made = self.connect(s.source, s.target, s.weight);
            proof {
                let id = made.unwrap();
                let now = self.circuit().edges;
                assert(now.dom() =~= before.edges.dom().insert(id));
                assert(now[id] == link_of(found@[k as int]));
                assert forall|e: u32| #[trigger]
                    now.contains_key(e) && !c0.edges.contains_key(e) implies from_found(
                    found@,
                    k + 1,
                    now[e],
                ) by {
                    if e != id {
                        assert(before.edges.contains_key(e));
                        let a = choose|a: int|
                            0 <= a < k && a < found@.len() && link_of(found@[a]) == before.edges[e];
                        assert(0 <= a < k + 1 && link_of(found@[a]) == now[e]);
                    } else {
                        assert(0 <= k < k + 1 && link_of(found@[k as int]) == now[e]);
                    }
                }
                assert forall|e: u32, f: u32|
                    #![trigger now[e], now[f]]
                    e != f && now.contains_key(e) && !c0.edges.contains_key(e)
                        && now.contains_key(f) && !c0.edges.contains_key(f) implies from_places(
                    found@,
                    k + 1,
                    now[e],
                    now[f],
                ) by {
                    if e != id && f != id {
                        assert(before.edges.contains_key(e) && before.edges.contains_key(f));
                        assert(from_places(found@, k as int, before.edges[e], before.edges[f]));
                        let (x, y) = choose|x: int, y: int|
                            0 <= x < k && 0 <= y < k && x < found@.len() && y < found@.len() && x
                                != y && #[trigger] link_of(found@[x]) == before.edges[e]
                                && #[trigger] link_of(found@[y]) == before.edges[f];
                        assert(link_of(found@[x]) == now[e] && link_of(found@[y]) == now[f]);
                    } else if e == id {
                        assert(before.edges.contains_key(f));
                        assert(from_found(found@, k as int, before.edges[f]));
                        let y = choose|y: int|
                            0 <= y < k && y < found@.len() && link_of(found@[y])
                                == before.edges[f];
                        assert(link_of(found@[k as int]) == now[e] && link_of(found@[y])
                            == now[f]);
                    } else {
                        assert(before.edges.contains_key(e));
                        assert(from_found(found@, k as int, before.edges[e]));
                        let x = choose|x: int|
                            0 <= x < k && x < found@.len() && link_of(found@[x])
                                == before.edges[e];
                        assert(link_of(found@[x]) == now[e] && link_of(found@[k as int])
                            == now[f]);
                    }
                }
                assert forall|a: int| 0 <= a < k + 1 implies added(
                    c0.edges,
                    now,
                    link_of(#[trigger] found@[a]),
                ) by {
                    if a < k {
                        let e = choose|e: u32|
                            before.edges.contains_key(e) && !c0.edges.contains_key(e)
                                && before.edges[e] == link_of(found@[a]);
                        assert(now.contains_key(e) && now[e] == link_of(found@[a]));
                    } else {
                        assert(!c0.edges.contains_key(id)) by {
                            if c0.edges.contains_key(id) {
                                assert(before.edges.contains_key(id));
                            }
                        }
                        assert(now.contains_key(id));
                    }
                }
            }
            k = k + 1;
        }
    }

    /// Removes the plain wire: every wire node that is not registered,
    /// with the edges that start or end at it.
    fn remove_wires(&mut self)
        requires
            old(self).wf(),
        ensures
            final(self).wf(),
            old(self).same_but_graph(final(self)),
            final(self).circuit().nodes == old(self).circuit().nodes.remove_keys(
                Set::new(|n: u32| old(self).wire(n)),
            ),
            forall|e: u32|
                #![trigger final(self).circuit().edges.contains_key(e)]
                final(self).circuit().edges.contains_key(e)
                    <==> (old(self).circuit().edges.contains_key(e) && !old(self).wire(
                    old(self).circuit().edges[e].source,
                ) && !old(self).wire(old(self).circuit().edges[e].target)),
            forall|e: u32| #[trigger]
                final(self).circuit().edges.contains_key(e) ==> final(self).circuit().edges[e]
                    == old(self).circuit().edges[e],
    {
        let ghost c0 = self.circuit();
        let ids = graph_node_indices(&self.blocks);
        proof {
            lemma_increasing_no_duplicates(ids@);
        }
        let mut i: usize = 0;
        while i < ids.len()
            invariant
                i <= ids@.len(),
                c0 == old(self).circuit(),
                old(self).wf(),
                self.wf(),
                old(self).same_but_graph(self),
                forall|k: u32| ids@.contains(k) <==> c0.nodes.contains_key(k),
                ids@.no_duplicates(),
                forall|n: u32|
                    #![trigger self.circuit().nodes.contains_key(n)]
                    self.circuit().nodes.contains_key(n) <==> (c0.nodes.contains_key(n) && !(
                    old(self).wire(n) && among_first(ids@, i as int, n))),
                forall|n: u32| #[trigger]
                    self.circuit().nodes.contains_key(n) ==> self.circuit().nodes[n] == c0.nodes[n],
                forall|e: u32|
                    #![trigger self.circuit().edges.contains_key(e)]
                    self.circuit().edges.contains_key(e) <==> (c0.edges.contains_key(e) && !(
                    old(self).wire(c0.edges[e].source) && among_first(
                        ids@,
                        i as int,
                        c0.edges[e].source,
                    )) && !(old(self).wire(c0.edges[e].target) && among_first(
                        ids@,
                        i as int,
                        c0.edges[e].target,
                    ))),
                forall|e: u32| #[trigger]
                    self.circuit().edges.contains_key(e) ==> self.circuit().edges[e] == c0.edges[e],
            decreases ids@.len() - i,
        {
            let n = ids[i];
            assert(ids@.contains(n));
            let ghost before = *self;
            assert(!among_first(ids@, i as int, n)) by {
                if among_first(ids@, i as int, n) {
                    let j = choose|j: int| 0 <= j < i && ids@[j] == n;
                    assert(ids@[j] == ids@[i as int]);
                }
            }
            assert(self.circuit().nodes.contains_key(n));
            assert(self.wire(n) == old(self).wire(n)) by {
                assert(self.registered(n) == old(self).registered(n));
            }
            let doomed = match graph_node_weight(&self.blocks, n) {
                Some(Block::Redstone(_)) => !self.is_registered(n),
                _ => false,
            };
            if doomed {
                graph_remove_node(&mut self.blocks, n);
                proof {
                    lemma_without_node(before.circuit(), n);
                    assert(self.circuit() == without_node(before.circuit(), n));
                    assert forall|m: u32| #[trigger] self.registered(m)
                        implies self.circuit().nodes.contains_key(
                    m) && self.circuit().nodes[m] is Redstone by {
                        assert(before.registered(m));
                    }
                    assert forall|m: u32| #[trigger] self.is_constant(m)
                        implies self.circuit().nodes[m] == crate::blocks::source_block() by {
                        assert(before.is_constant(m));
                        assert(before.registered(m));
                        assert(before.circuit().nodes[m] == crate::blocks::source_block());
                    }
                }
            }
            proof {
                assert forall|m: u32| among_first(ids@, i + 1, m) <==> (among_first(
                    ids@,
                    i as int,
                    m,
                ) || m == n) by {
                    if among_first(ids@, i + 1, m) {
                        let j = choose|j: int| 0 <= j < i + 1 && j < ids@.len() && ids@[j] == m;
                        if j < i {
                            assert(among_first(ids@, i as int, m));
                        }
                    }
                    if among_first(ids@, i as int, m) {
                        let j = choose|j: int| 0 <= j < i && j < ids@.len() && ids@[j] == m;
                        assert(0 <= j < i + 1 && ids@[j] == m);
                    }
                    if m == n {
                        assert(0 <= i < i + 1 && ids@[i as int] == m);
                    }
                }
                assert forall|e: u32|
                    #![trigger self.circuit().edges.contains_key(e)]
                    self.circuit().edges.contains_key(e) <==> (c0.edges.contains_key(e) && !(
                    old(self).wire(c0.edges[e].source) && among_first(
                        ids@,
                        i + 1,
                        c0.edges[e].source,
                    )) && !(old(self).wire(c0.edges[e].target) && among_first(
                        ids@,
                        i + 1,
                        c0.edges[e].target,
                    ))) by {
                    assert(before.circuit().edges.contains_key(e) ==> before.circuit().edges[e]
                        == c0.edges[e]);
                }
            }
            i = i + 1;
        }
        proof {
            let goal = c0.nodes.remove_keys(Set::new(|n: u32| old(self).wire(n)));
            assert forall|n: u32| c0.nodes.contains_key(n) implies among_first(
                ids@,
                i as int,
                n,
            ) by {
                assert(ids@.contains(n));
                let j = choose|j: int| 0 <= j < ids@.len() && ids@[j] == n;
                assert(0 <= j < i && ids@[j] == n);
            }
            assert forall|n: u32| self.circuit().nodes.contains_key(n) <==> goal.contains_key(
                n,
            ) by {}
            assert(self.circuit().nodes =~= goal);
            assert forall|e: u32|
                #![trigger self.circuit().edges.contains_key(e)]
                self.circuit().edges.contains_key(e) <==> (c0.edges.contains_key(e)
                    && !old(self).wire(c0.edges[e].source)
                        && !old(self).wire(c0.edges[e].target)) by {
                if c0.edges.contains_key(e) {
                    assert(c0.nodes.contains_key(c0.edges[e].source));
                    assert(c0.nodes.contains_key(c0.edges[e].target));
                }
            }
        }
    }

    /// Whether this world is `before` with its wire replaced by edges:
    /// exactly the plain wire has left; the edges between nodes that
    /// stay have stayed; each new edge is a shortcut, with the weight of
    /// a walk through wire that has the fewest edges of the walks from
    /// its source that enter its target through its face; each such
    /// pair of nodes and face has got a new edge, and one only.
    pub open spec fn redstone_pruned(&self, before: &World) -> bool {
        &&& self.wf()
        &&& before.same_but_graph(self)
        &&& self.circuit().nodes == before.circuit().nodes.remove_keys(
            Set::new(|n: u32| before.wire(n)),
        )
        &&& forall|n: u32| #[trigger]
            self.circuit().nodes.contains_key(n) && self.circuit().nodes[n] is Redstone
                ==> self.registered(n)
        &&& forall|e: u32| #[trigger]
            before.circuit().edges.contains_key(e) ==> {
                &&& self.circuit().edges.contains_key(e) <==> (!before.wire(
                    before.circuit().edges[e].source,
                ) && !before.wire(before.circuit().edges[e].target))
                &&& self.circuit().edges.contains_key(e) ==> self.circuit().edges[e]
                    == before.circuit().edges[e]
            }
        &&& forall|e: u32| #[trigger]
            self.circuit().edges.contains_key(e) && !before.circuit().edges.contains_key(e)
                ==> before.shortcut_ok(
                (Shortcut {
                    source: self.circuit().edges[e].source,
                    target: self.circuit().edges[e].target,
                    weight: self.circuit().edges[e].weight,
                }),
            )
        &&& forall|n: u32, path: Seq<u32>|
            #![trigger wire_path(before.circuit(), path, n)]
            before.circuit().nodes.contains_key(n) && before.feeds(n) && wire_path(
                before.circuit(),
                path,
                n,
            ) && before.ends_walk(path_end(before.circuit(), path)) ==> shortcut_in(
                before.circuit().edges,
                self.circuit().edges,
                n,
                path_end(before.circuit(), path),
                before.circuit().edges[path.last()].weight.side(),
            )
        &&& forall|e: u32, f: u32|
            #![trigger self.circuit().edges[e], self.circuit().edges[f]]
            e != f && self.circuit().edges.contains_key(e)
                && !before.circuit().edges.contains_key(e) && self.circuit().edges.contains_key(f)
                && !before.circuit().edges.contains_key(f) ==> !twins(
                shortcut_of(self.circuit().edges[e]),
                shortcut_of(self.circuit().edges[f]),
            )
    }

    /// Whether `other` is this world: the same graph, the same tables,
    /// the same work list.
    pub open spec fn unchanged(&self, other: &World) -> bool {
        self.circuit() == other.circuit() && self.same_but_graph(other)
    }

    /// Replaces wire by edges: each node that feeds wire gets an edge to
    /// each node at which a walk through that wire ends, for each face
    /// through which one enters it, and the plain wire leaves the graph.
    ///
    /// Of the walks from a node to a node through one face, one found
    /// first by a breadth-first search gives the edge: one of the
    /// fewest edges. Nothing is done, and `TooLarge` is the error, when
    /// the graph has no room for the new edges.
    pub fn prune_redstone(&mut self) -> (r: Result<(), BuildError>)
        requires
            old(self).wf(),
        ensures
            final(self).wf(),
            r is Ok == old(self).fits(),
            r matches Err(e) ==> e == BuildError::TooLarge && old(self).unchanged(final(self)),
            r is Ok ==> final(self).redstone_pruned(old(self)),
    {
        let ghost c0 = self.circuit();
        let found = match self.all_wire_ends() {
            Some(found) => found,
            None => {
                return Err(BuildError::TooLarge);
            },
        };
        proof {
            self.lemma_found_count(found@);
        }
        if found.len() > GRAPH_LIMIT - self.edge_count() {
            return Err(BuildError::TooLarge);
        }
        proof {
            assert forall|a: int| 0 <= a < found@.len() implies Self::admits(
                self.circuit(),
                (#[trigger] found@[a]).source,
                found@[a].target,
                found@[a].weight,
            ) by {
                assert(self.shortcut_ok(found@[a]));
            }
        }
        self.add_shortcuts(&found);
        let ghost mid = *self;
        proof {
            assert forall|n: u32| mid.wire(n) == old(self).wire(n) by {
                assert(mid.registered(n) == old(self).registered(n));
            }
        }
        self.remove_wires();
        proof {
            let fin = self.circuit();
            assert(Set::new(|n: u32| mid.wire(n)) =~= Set::new(|n: u32| old(self).wire(n)));
            assert forall|n: u32| #[trigger]
                fin.nodes.contains_key(n) && fin.nodes[n] is Redstone implies self.registered(
                n,
            ) by {
                assert(!old(self).wire(n));
                assert(self.registered(n) == old(self).registered(n));
            }
            assert forall|e: u32| #[trigger]
                fin.edges.contains_key(e)
                    && !c0.edges.contains_key(e) implies old(self).shortcut_ok(
                (Shortcut {
                    source: fin.edges[e].source,
                    target: fin.edges[e].target,
                    weight: fin.edges[e].weight,
                }),
            ) by {
                assert(mid.circuit().edges.contains_key(e));
                assert(from_found(found@, found@.len() as int, mid.circuit().edges[e]));
                let a = choose|a: int|
                    0 <= a < found@.len() && link_of(found@[a]) == mid.circuit().edges[e];
                assert(old(self).shortcut_ok(found@[a]));
            }
            assert forall|n: u32, path: Seq<u32>|
                #![trigger wire_path(c0, path, n)]
                c0.nodes.contains_key(n) && old(self).feeds(n) && wire_path(c0, path, n)
                    && old(self).ends_walk(path_end(c0, path)) implies shortcut_in(
                c0.edges,
                fin.edges,
                n,
                path_end(c0, path),
                c0.edges[path.last()].weight.side(),
            ) by {
                assert(old(self).walks_found(found@, n));
                let a = choose|a: int|
                    0 <= a < found@.len() && found@[a].source == n && found@[a].target
                        == path_end(c0, path) && found@[a].weight.side()
                        == c0.edges[path.last()].weight.side();
                assert(added(c0.edges, mid.circuit().edges, link_of(found@[a])));
                let e = choose|e: u32|
                    mid.circuit().edges.contains_key(e) && !c0.edges.contains_key(e)
                        && mid.circuit().edges[e] == link_of(found@[a]);
                assert(old(self).shortcut_ok(found@[a]));
                assert(!mid.wire(n));
                assert(!mid.wire(path_end(c0, path)));
                assert(fin.edges.contains_key(e));
            }
            assert forall|e: u32, f: u32|
                #![trigger fin.edges[e], fin.edges[f]]
                e != f && fin.edges.contains_key(e) && !c0.edges.contains_key(e)
                    && fin.edges.contains_key(f) && !c0.edges.contains_key(f) implies !twins(
                shortcut_of(fin.edges[e]),
                shortcut_of(fin.edges[f]),
            ) by {
                let m = mid.circuit().edges;
                assert(m.contains_key(e) && m.contains_key(f));
                assert(m[e] == fin.edges[e] && m[f] == fin.edges[f]);
                let _ = m[e];
                let _ = m[f];
                assert(from_places(found@, found@.len() as int, m[e], m[f]));
                let (x, y) = choose|x: int, y: int|
                    0 <= x < found@.len() && 0 <= y < found@.len() && x < found@.len() && y
                        < found@.len() && x != y && #[trigger] link_of(found@[x]) == m[e]
                        && #[trigger] link_of(found@[y]) == m[f];
                if x < y {
                    assert(!twins(found@[x], found@[y]));
                } else {
                    assert(!twins(found@[y], found@[x]));
                }
            }
        }
        Ok(())
    }

    /// Whether the target and the weight of `link` are those of an edge
    /// of this world, or those of what a walk through its wire ends at.
    pub open spec fn derives(&self, link: Link) -> bool {
        echoes(self.circuit().edges, link) || exists|from: u32|
            self.shortcut_ok((Shortcut { source: from, target: link.target, weight: link.weight }))
    }

    /// Whether this world is `before` with its siblings merged, as
    /// `prune_groups` does it.
    pub open spec fn groups_pruned(&self, before: &World) -> bool {
        &&& self.wf()
        &&& before.same_but_graph(self)
        &&& forall|n: u32| #[trigger]
            self.circuit().nodes.contains_key(n) ==> before.circuit().nodes.contains_key(n)
                && self.circuit().nodes[n] == before.circuit().nodes[n]
        &&& forall|n: u32|
            before.circuit().nodes.contains_key(n) && !(
            #[trigger] self.circuit().nodes.contains_key(n)) ==> mergeable(
                before.circuit().nodes,
                n,
            )
        &&& forall|e: u32| #[trigger]
            self.circuit().edges.contains_key(e) ==> echoes(
                before.circuit().edges,
                self.circuit().edges[e],
            )
        &&& edges_kept(before.circuit(), self.circuit())
        &&& all_taken_over(before.circuit(), self.circuit())
        &&& all_were_siblings(before.circuit(), self.circuit())
        &&& forall|p: u32| #[trigger]
            mergeable(self.circuit().nodes, p) ==> settled(self.circuit(), p)
    }

    /// Whether `after` is `before` pruned, with the worlds in between:
    /// `w1` after wire has become edges, `w2` after the best of
    /// parallel edges has been kept, `w3` after the edges along which
    /// no signal arrives have gone, `w4` after siblings have been
    /// merged, `w5` after the best of parallel edges has been kept
    /// again, and `after` without the dead nodes of `w5`.
    pub open spec fn pruning(
        before: &World,
        w1: &World,
        w2: &World,
        w3: &World,
        w4: &World,
        w5: &World,
        after: &World,
    ) -> bool {
        &&& w1.redstone_pruned(before)
        &&& w2.wf() && w1.same_but_edges(w2) && w2.circuit().edges == best_edges(
            w1.circuit().edges,
        )
        &&& w3.wf() && w2.same_but_edges(w3) && w3.circuit().edges == short_edges(
            w2.circuit().edges,
        )
        &&& w4.groups_pruned(w3)
        &&& w5.wf() && w4.same_but_edges(w5) && w5.circuit().edges == best_edges(
            w4.circuit().edges,
        )
        &&& after.wf() && w5.same_but_graph(after) && after.circuit().edges
            == w5.circuit().edges && after.circuit().nodes == w5.circuit().nodes.remove_keys(
            Set::new(|n: u32| w5.dead(n)),
        )
    }

    /// Whether this world is `before` pruned: the passes of `pruning`
    /// have led from the one to the other.
    pub open spec fn pruned(&self, before: &World) -> bool {
        exists|w1: World, w2: World, w3: World, w4: World, w5: World| #[trigger]
            Self::pruning(before, &w1, &w2, &w3, &w4, &w5, self)
    }

    /// Prunes the graph: wire becomes edges, of the edges that join the
    /// same nodes through the same face the best one stays, edges along
    /// which no signal arrives go, siblings that do the same work
    /// become one, and dead nodes go.
    ///
    /// Nothing is done, and `TooLarge` is the error, when the graph has
    /// no room for the edges that take the place of wire.
    pub fn prune_graph(&mut self) -> (r: Result<(), BuildError>)
        requires
            old(self).wf(),
        ensures
            final(self).wf(),
            old(self).same_but_graph(final(self)),
            r is Ok == old(self).fits(),
            r matches Err(e) ==> e == BuildError::TooLarge && old(self).unchanged(final(self)),
            r is Ok ==> final(self).pruned(old(self)),
            r is Ok ==> forall|n: u32| #[trigger]
                final(self).circuit().nodes.contains_key(n)
                    && final(self).circuit().nodes[n] is Redstone ==> final(self).registered(n),
            r is Ok && old(self).constants@.len() == 0 ==> forall|n: u32| #[trigger]
                final(self).circuit().nodes.contains_key(n)
                    && final(self).circuit().nodes[n] is Redstone ==> final(self).probes.has_node(n)
                    || final(self).triggers.has_node(n),
            r is Ok ==> all_short(final(self).circuit().edges),
            r is Ok ==> no_parallel_edges(final(self).circuit().edges),
            r is Ok ==> forall|n: u32| !final(self).dead(n),
            forall|n: u32| #[trigger]
                final(self).circuit().nodes.contains_key(n)
                    ==> old(self).circuit().nodes.contains_key(n)
                    && final(self).circuit().nodes[n] == old(self).circuit().nodes[n],
            r is Ok ==> forall|e: u32| #[trigger]
                final(self).circuit().edges.contains_key(e) ==> old(self).derives(
                    final(self).circuit().edges[e],
                ),
    {
        let ghost c0 = self.circuit();
        match self.prune_redstone() {
            Err(e) => {
                return Err(e);
            },
            Ok(_) => {},
        }
        let ghost w1 = *self;
        proof {
            assert forall|e: u32| #[trigger] w1.circuit().edges.contains_key(e)
                implies old(self).derives(w1.circuit().edges[e]) by {
                let l = w1.circuit().edges[e];
                if c0.edges.contains_key(e) {
                    assert(echoes(c0.edges, l));
                } else {
                    assert(old(self).shortcut_ok(
                        (Shortcut { source: l.source, target: l.target, weight: l.weight }),
                    ));
                }
            }
        }
        self.prune_duplicate_edges();
        let ghost w2 = *self;
        self.prune_too_long_edges();
        let ghost w3 = *self;
        self.prune_groups();
        let ghost w4 = *self;
        proof {
            assert(w4.groups_pruned(&w3));
        }
        proof {
            assert forall|e: u32| #[trigger] w4.circuit().edges.contains_key(e)
                implies old(self).derives(w4.circuit().edges[e])
                    && w4.circuit().edges[e].weight.loss()
                < MAX_POWER by {
                let l = w4.circuit().edges[e];
                assert(echoes(w3.circuit().edges, l));
                let e3 = choose|e3: u32|
                    w3.circuit().edges.contains_key(e3) && w3.circuit().edges[e3].target
                        == l.target && w3.circuit().edges[e3].weight == l.weight;
                assert(w1.circuit().edges.contains_key(e3));
                let l1 = w1.circuit().edges[e3];
                assert(old(self).derives(l1));
                if echoes(c0.edges, l1) {
                    let e0 = choose|e0: u32|
                        c0.edges.contains_key(e0) && c0.edges[e0].target == l1.target
                            && c0.edges[e0].weight == l1.weight;
                    assert(c0.edges[e0].target == l.target);
                    assert(echoes(c0.edges, l));
                } else {
                    let from = choose|from: u32|
                        old(self).shortcut_ok(
                            (Shortcut { source: from, target: l1.target, weight: l1.weight }),
                        );
                    assert(old(self).shortcut_ok(
                        (Shortcut { source: from, target: l.target, weight: l.weight }),
                    ));
                }
            }
        }
        self.prune_duplicate_edges();
        let ghost w5 = *self;
        self.prune_dead_nodes();
        proof {
            let fin = self.circuit();
            assert forall|n: u32| #[trigger]
                fin.nodes.contains_key(n) && fin.nodes[n] is Redstone implies self.registered(
                n,
            ) by {
                assert(w5.circuit().nodes.contains_key(n));
                assert(w4.circuit().nodes.contains_key(n));
                assert(w3.circuit().nodes.contains_key(n));
                assert(w1.circuit().nodes.contains_key(n));
                assert(w1.registered(n));
            }
            assert forall|n: u32| #[trigger] fin.nodes.contains_key(n)
                implies c0.nodes.contains_key(
            n) && fin.nodes[n] == c0.nodes[n] by {
                assert(w5.circuit().nodes.contains_key(n));
                assert(w4.circuit().nodes.contains_key(n));
                assert(w3.circuit().nodes.contains_key(n));
                assert(w1.circuit().nodes.contains_key(n));
            }
            assert forall|e: u32| #[trigger] fin.edges.contains_key(e) implies old(self).derives(
                fin.edges[e],
            ) by {
                assert(w5.circuit().edges.contains_key(e));
                assert(w4.circuit().edges.contains_key(e));
            }
            if old(self).constants@.len() == 0 {
                assert forall|n: u32| #[trigger]
                    fin.nodes.contains_key(n) && fin.nodes[n] is Redstone
                        implies self.probes.has_node(
                    n,
                ) || self.triggers.has_node(n) by {
                    assert(self.registered(n));
                    assert(!self.is_constant(n));
                }
            }
            assert(all_short(fin.edges)) by {
                assert forall|e: u32| #[trigger] fin.edges.contains_key(e)
                    implies fin.edges[e].weight.loss()
                    < MAX_POWER by {
                    assert(w5.circuit().edges.contains_key(e));
                    assert(w4.circuit().edges.contains_key(e));
                }
            }
            assert(Self::pruning(old(self), &w1, &w2, &w3, &w4, &w5, self));
        }
        Ok(())
    }
}

} // verus!
