//! Walks through wire: from a node that feeds a stretch of wire to the
//! nodes at which the wire ends.

use crate::edge::Edge;
use crate::graph::{
    graph_edge_endpoints, graph_edge_weight, graph_edges_directed, graph_node_weight, Circuit,
};
use crate::world::World;
use core::ops::Add;
use petgraph::Direction;
use vstd::prelude::*;

verus! {

/// Whether `path` is a walk through wire that starts at `from`: a list
/// of edges of the circuit, the first of which starts at `from`, each
/// starting where the one before it ends, and each but the last ending
/// at a wire node.
pub open spec fn wire_path(c: Circuit, path: Seq<u32>, from: u32) -> bool {
    &&& path.len() > 0
    &&& forall|i: int| 0 <= i < path.len() ==> c.edges.contains_key(#[trigger] path[i])
    &&& c.edges[path[0]].source == from
    &&& forall|i: int|
        0 <= i < path.len() - 1 ==> {
            &&& c.edges[#[trigger] path[i]].target == c.edges[path[i + 1]].source
            &&& c.nodes[c.edges[path[i]].target] is Redstone
        }
}

/// The node at which a walk ends.
pub open spec fn path_end(c: Circuit, path: Seq<u32>) -> u32 {
    c.edges[path.last()].target
}

/// The weight of a walk: its edges joined, one after the other.
pub open spec fn path_weight(c: Circuit, path: Seq<u32>) -> Edge
    decreases path.len(),
{
    if path.len() == 0 {
        Edge::Rear(0)
    } else {
        path_weight(c, path.drop_last()).join(c.edges[path.last()].weight)
    }
}

/// Whether a walk through wire of `len` edges leads from `from` to `at`
/// and weighs `weight`.
pub open spec fn reached_in(c: Circuit, from: u32, at: u32, weight: Edge, len: nat) -> bool {
    exists|path: Seq<u32>|
        wire_path(c, path, from) && path_end(c, path) == at && path_weight(c, path) == weight
            && path.len() == len
}

/// Whether `path` is a walk through wire from `from` that leads to `at`
/// and enters it through the face `side`.
pub open spec fn leads_to(c: Circuit, path: Seq<u32>, from: u32, at: u32, side: bool) -> bool {
    wire_path(c, path, from) && path_end(c, path) == at && c.edges[path.last()].weight.side()
        == side
}

/// Whether `weight` is that of a walk through wire from `from` to `at`
/// that has the fewest edges of all the walks from `from` that enter
/// `at` through the same face.
pub open spec fn found_first(c: Circuit, from: u32, at: u32, weight: Edge) -> bool {
    exists|len: nat|
        #[trigger] reached_in(c, from, at, weight, len) && forall|q: Seq<u32>|
            #![trigger wire_path(c, q, from)]
            leads_to(c, q, from, at, weight.side()) ==> len <= q.len()
}

/// Whether the end of every walk through wire from `from` of `len`
/// edges at most is marked, with the face through which the walk
/// enters it.
pub open spec fn short_marked(c: Circuit, from: u32, seen: Seq<bool>, len: nat) -> bool {
    forall|path: Seq<u32>|
        #![trigger wire_path(c, path, from)]
        wire_path(c, path, from) && path.len() <= len ==> marked(
            seen,
            path_end(c, path),
            c.edges[path.last()].weight.side(),
        )
}

/// Whether each entry of `ends` has its pair of node and face marked,
/// and no two entries have the same pair.
pub open spec fn ends_apart(seen: Seq<bool>, ends: Seq<(u32, Edge)>) -> bool {
    &&& forall|i: int|
        0 <= i < ends.len() ==> marked(seen, (#[trigger] ends[i]).0, ends[i].1.side())
    &&& forall|i: int, j: int|
        0 <= i < j < ends.len() ==> !((#[trigger] ends[i]).0 == (#[trigger] ends[j]).0
            && ends[i].1.side() == ends[j].1.side())
}

/// Whether no two entries of `ends` have the same node and the same
/// face.
pub open spec fn no_twins(ends: Seq<(u32, Edge)>) -> bool {
    forall|i: int, j: int|
        0 <= i < j < ends.len() ==> !((#[trigger] ends[i]).0 == (#[trigger] ends[j]).0
            && ends[i].1.side() == ends[j].1.side())
}

/// The place of the pair of a node and a face in the list of marks.
pub open spec fn code(n: u32, side: bool) -> int {
    2 * (n as int) + (if side {
        1int
    } else {
        0int
    })
}

/// Whether the pair of node `n` and face `side` carries a mark.
pub open spec fn marked(seen: Seq<bool>, n: u32, side: bool) -> bool {
    code(n, side) < seen.len() && seen[code(n, side)]
}

/// The number of places that carry no mark.
pub open spec fn unmarked(s: Seq<bool>) -> nat
    decreases s.len(),
{
    if s.len() == 0 {
        0
    } else {
        unmarked(s.drop_last()) + (if s.last() {
            0nat
        } else {
            1nat
        })
    }
}

/// Whether `y` is the node of one of the entries of `list` from place
/// `from` on.
pub open spec fn listed(list: Seq<(u32, Edge)>, from: int, y: u32) -> bool {
    exists|k: int| from <= k < list.len() && 0 <= k && list[k].0 == y
}

/// Whether `ends` holds an entry for node `y` with a weight of face
/// `side`.
pub open spec fn recorded(ends: Seq<(u32, Edge)>, y: u32, side: bool) -> bool {
    exists|i: int| 0 <= i < ends.len() && ends[i].0 == y && ends[i].1.side() == side
}

/// Whether every edge that starts at a node of `expanded` has the pair
/// of its target and its face marked.
pub open spec fn closed(c: Circuit, expanded: Set<u32>, seen: Seq<bool>) -> bool {
    forall|e: u32| #[trigger]
        c.edges.contains_key(e) && expanded.contains(c.edges[e].source) ==> marked(
            seen,
            c.edges[e].target,
            c.edges[e].weight.side(),
        )
}

/// Whether `marks` lists the places of `seen` that carry a mark.
pub open spec fn marks_ok(seen: Seq<bool>, marks: Seq<usize>) -> bool {
    &&& forall|a: int| 0 <= a < marks.len() ==> marks[a] < seen.len() && seen[marks[a] as int]
    &&& forall|i: int| 0 <= i < seen.len() && seen[i] ==> to_reset(marks, 0, i)
    &&& marks.len() + unmarked(seen) == seen.len()
}

/// Whether place `i` is one of the marks from place `from` on.
pub open spec fn to_reset(marks: Seq<usize>, from: int, i: int) -> bool {
    exists|a: int| from <= a < marks.len() && 0 <= a && marks[a] == i
}

/// Whether `after` carries every mark that `before` carries.
pub open spec fn grows(before: Seq<bool>, after: Seq<bool>) -> bool {
    &&& before.len() == after.len()
    &&& forall|i: int| 0 <= i < before.len() && before[i] ==> after[i]
}

/// Whether `after` begins with the entries of `before`.
pub open spec fn keeps(before: Seq<(u32, Edge)>, after: Seq<(u32, Edge)>) -> bool {
    &&& before.len() <= after.len()
    &&& forall|i: int| 0 <= i < before.len() ==> after[i] == before[i]
}

proof fn lemma_unmarked_bound(s: Seq<bool>)
    ensures
        unmarked(s) <= s.len(),
    decreases s.len(),
{
    if s.len() > 0 {
        lemma_unmarked_bound(s.drop_last());
    }
}

proof fn lemma_unmarked_all(s: Seq<bool>)
    requires
        forall|i: int| 0 <= i < s.len() ==> !s[i],
    ensures
        unmarked(s) == s.len(),
    decreases s.len(),
{
    if s.len() > 0 {
        lemma_unmarked_all(s.drop_last());
    }
}

proof fn lemma_unmarked_mark(s: Seq<bool>, i: int)
    requires
        0 <= i < s.len(),
        !s[i],
    ensures
        unmarked(s.update(i, true)) + 1 == unmarked(s),
    decreases s.len(),
{
    if i == s.len() - 1 {
        assert(s.update(i, true).drop_last() =~= s.drop_last());
    } else {
        lemma_unmarked_mark(s.drop_last(), i);
        assert(s.update(i, true).drop_last() =~= s.drop_last().update(i, true));
    }
}

/// A walk of `level` edges that ends at a wire node goes on along any
/// edge that starts there, and an edge that starts at `from` is a walk
/// of one edge.
pub proof fn lemma_extend_path(
    c: Circuit,
    from: u32,
    at: u32,
    weight: Edge,
    e: u32,
    level: nat,
)
    requires
        c.edges.contains_key(e),
        c.edges[e].source == at,
        (level == 0 && at == from && weight == Edge::Rear(0)) || (level >= 1 && reached_in(
            c,
            from,
            at,
            weight,
            level,
        ) && c.nodes[at] is Redstone),
    ensures
        reached_in(c, from, c.edges[e].target, weight.join(c.edges[e].weight), level + 1),
{
    if level >= 1 {
        let p = choose|path: Seq<u32>|
            wire_path(c, path, from) && path_end(c, path) == at && path_weight(c, path) == weight
                && path.len() == level;
        let q = p.push(e);
        assert(q.drop_last() =~= p);
        assert forall|i: int| 0 <= i < q.len() implies c.edges.contains_key(#[trigger] q[i]) by {
            if i < p.len() {
                assert(q[i] == p[i]);
            }
        }
        assert forall|i: int| 0 <= i < q.len() - 1 implies c.edges[#[trigger] q[i]].target
            == c.edges[q[i + 1]].source && c.nodes[c.edges[q[i]].target] is Redstone by {
            assert(q[i] == p[i]);
            if i < p.len() - 1 {
                assert(q[i + 1] == p[i + 1]);
            }
        }
        assert(q[0] == p[0]);
        assert(wire_path(c, q, from));
        assert(path_end(c, q) == c.edges[e].target);
        assert(path_weight(c, q) == weight.join(c.edges[e].weight));
        assert(q.len() == level + 1);
    } else {
        let q = seq![e];
        assert(q.drop_last() =~= Seq::<u32>::empty());
        assert(path_weight(c, q.drop_last()) == Edge::Rear(0));
        assert(wire_path(c, q, from));
        assert(path_end(c, q) == c.edges[e].target);
        assert(path_weight(c, q) == weight.join(c.edges[e].weight));
        assert(q.len() == level + 1);
    }
}

/// Marks stay: what is marked for the walks of some length stays so
/// when more is marked.
pub proof fn lemma_short_grows(
    c: Circuit,
    from: u32,
    before: Seq<bool>,
    after: Seq<bool>,
    len: nat,
)
    requires
        short_marked(c, from, before, len),
        grows(before, after),
    ensures
        short_marked(c, from, after, len),
{
    assert forall|path: Seq<u32>|
        #![trigger wire_path(c, path, from)]
        wire_path(c, path, from) && path.len() <= len implies marked(
        after,
        path_end(c, path),
        c.edges[path.last()].weight.side(),
    ) by {
        assert(marked(before, path_end(c, path), c.edges[path.last()].weight.side()));
    }
}

/// A walk without its last edge is a walk, if it has more than one
/// edge, and it ends at a wire node where the last edge starts.
pub proof fn lemma_walk_prefix(c: Circuit, path: Seq<u32>, from: u32)
    requires
        wire_path(c, path, from),
        path.len() >= 2,
    ensures
        wire_path(c, path.drop_last(), from),
        path_end(c, path.drop_last()) == c.edges[path.last()].source,
        c.nodes[path_end(c, path.drop_last())] is Redstone,
        c.edges.contains_key(path.last()),
        c.edges.contains_key(path.drop_last().last()),
{
    let p = path.drop_last();
    assert forall|i: int| 0 <= i < p.len() implies c.edges.contains_key(#[trigger] p[i]) by {
        assert(p[i] == path[i]);
    }
    assert(p[0] == path[0]);
    assert forall|i: int| 0 <= i < p.len() - 1 implies c.edges[#[trigger] p[i]].target
        == c.edges[p[i + 1]].source && c.nodes[c.edges[p[i]].target] is Redstone by {
        assert(p[i] == path[i] && p[i + 1] == path[i + 1]);
    }
    let k = path.len() - 2;
    assert(p.last() == path[k]);
    assert(c.edges[path[k]].target == c.edges[path[k + 1]].source);
    assert(c.edges.contains_key(path[path.len() - 1]));
}

/// Once the expanded nodes hold the start of the walks and every marked
/// wire node, and every edge that starts at one of them has its target
/// marked, each step of each walk from the start is marked.
pub proof fn lemma_walk_marked(
    w: &World,
    from: u32,
    seen: Seq<bool>,
    expanded: Set<u32>,
    path: Seq<u32>,
    k: int,
)
    requires
        w.wf(),
        wire_path(w.circuit(), path, from),
        1 <= k <= path.len(),
        expanded.contains(from),
        closed(w.circuit(), expanded, seen),
        forall|y: u32|
            w.circuit().nodes.contains_key(y) && #[trigger] marked(seen, y, false)
                && w.circuit().nodes[y] is Redstone ==> expanded.contains(y),
    ensures
        marked(
            seen,
            w.circuit().edges[path[k - 1]].target,
            w.circuit().edges[path[k - 1]].weight.side(),
        ),
    decreases k,
{
    let c = w.circuit();
    assert(c.edges.contains_key(path[k - 1]));
    if k == 1 {
        assert(expanded.contains(c.edges[path[0]].source));
    } else {
        lemma_walk_marked(w, from, seen, expanded, path, k - 1);
        let e = path[k - 2];
        assert(c.edges.contains_key(e));
        let y = c.edges[e].target;
        assert(c.edges[e].target == c.edges[path[k - 2 + 1]].source);
        assert(c.nodes[y] is Redstone);
        assert(!c.edges[e].weight.side());
        assert(marked(seen, y, false));
        assert(expanded.contains(y));
    }
}

impl World {
    /// Whether a walk through wire stops at node `n` to record it: `n`
    /// is no wire node, or it is a probe.
    pub open spec fn ends_walk(&self, n: u32) -> bool {
        !(self.circuit().nodes[n] is Redstone) || self.probes.has_node(n)
    }

    /// Whether walks through wire start at node `n`: `n` is no wire
    /// node, or it is a trigger or a constant source.
    pub open spec fn feeds(&self, n: u32) -> bool {
        !(self.circuit().nodes[n] is Redstone) || self.triggers.has_node(n) || self.is_constant(n)
    }

    /// Whether an entry of the work of a walk is in order in the round
    /// `level`: in round 0 it is the start with nothing lost, and in a
    /// later round its node is a wire node that a walk of `level` edges
    /// from the start reaches with the weight of the entry.
    pub open spec fn entry_ok(&self, from: u32, entry: (u32, Edge), level: nat) -> bool {
        &&& entry.1 is Rear
        &&& self.circuit().nodes.contains_key(entry.0)
        &&& (level == 0 && entry.0 == from && entry.1 == Edge::Rear(0)) || (level >= 1
            && reached_in(self.circuit(), from, entry.0, entry.1, level)
            && self.circuit().nodes[entry.0] is Redstone)
    }

    /// Whether `end` is what a walk from `from` records: a node at
    /// which walks stop, with the weight of a walk that leads there and
    /// has the fewest edges of the walks that enter the node through
    /// the same face.
    pub open spec fn walk_end(&self, from: u32, end: (u32, Edge)) -> bool {
        &&& self.circuit().nodes.contains_key(end.0)
        &&& self.ends_walk(end.0)
        &&& found_first(self.circuit(), from, end.0, end.1)
        &&& end.1.wf()
        &&& end.1.side() ==> (self.circuit().nodes[end.0] is Repeater
            || self.circuit().nodes[end.0] is Comparator)
    }

    /// Whether every entry of `list` is in order.
    pub open spec fn entries_ok(&self, from: u32, list: Seq<(u32, Edge)>, level: nat) -> bool {
        forall|k: int| 0 <= k < list.len() ==> self.entry_ok(from, #[trigger] list[k], level)
    }

    /// Whether every entry of `ends` is what a walk from `from` records.
    pub open spec fn ends_ok(&self, from: u32, ends: Seq<(u32, Edge)>) -> bool {
        forall|i: int| 0 <= i < ends.len() ==> self.walk_end(from, #[trigger] ends[i])
    }

    /// Whether each marked pair whose node ends walks is recorded.
    pub open spec fn ends_tracked(&self, seen: Seq<bool>, ends: Seq<(u32, Edge)>) -> bool {
        forall|y: u32, s: bool|
            self.circuit().nodes.contains_key(y) && #[trigger] marked(seen, y, s) && self.ends_walk(
                y,
            ) ==> recorded(ends, y, s)
    }

    /// Whether each marked wire node is expanded or still listed, in
    /// `state` from place `k` on or in `new_state`.
    pub open spec fn wires_tracked(
        &self,
        seen: Seq<bool>,
        expanded: Set<u32>,
        state: Seq<(u32, Edge)>,
        k: int,
        new_state: Seq<(u32, Edge)>,
    ) -> bool {
        forall|y: u32|
            self.circuit().nodes.contains_key(y) && #[trigger] marked(seen, y, false)
                && self.circuit().nodes[y] is Redstone ==> expanded.contains(y) || listed(
                state,
                k,
                y,
            ) || listed(new_state, 0, y)
    }

    /// Whether the marks of `after` that `before` lacks are those of
    /// the pair of `to` and `side` alone, and that pair is recorded in
    /// `ends` if `to` ends walks and listed in `new_state` if `to` is a
    /// wire node.
    pub open spec fn fresh_mark(
        &self,
        before: Seq<bool>,
        after: Seq<bool>,
        to: u32,
        side: bool,
        ends: Seq<(u32, Edge)>,
        new_state: Seq<(u32, Edge)>,
    ) -> bool {
        forall|y: u32, s: bool| #[trigger]
            marked(after, y, s) ==> marked(before, y, s) || (y == to && s == side && (
            self.ends_walk(to) ==> recorded(ends, to, side)) && (
            self.circuit().nodes[to] is Redstone ==> listed(new_state, 0, to)))
    }

    /// Follows edge `e` from the entry `(at, so_far)` of a walk from
    /// `node`: unless the pair of its target and its face is marked, the
    /// pair gets its mark, a target that ends walks is recorded, and a
    /// target that is a wire node is listed for the next round.
    #[verifier::rlimit(40)]
    fn follow_edge(
        &self,
        node: u32,
        at: u32,
        so_far: Edge,
        e: u32,
        seen: &mut Vec<bool>,
        marks: &mut Vec<usize>,
        ends: &mut Vec<(u32, Edge)>,
        new_state: &mut Vec<(u32, Edge)>,
        Ghost(level): Ghost<nat>,
    )
        requires
            self.wf(),
            self.entry_ok(node, (at, so_far), level),
            short_marked(self.circuit(), node, old(seen)@, level),
            ends_apart(old(seen)@, old(ends)@),
            self.circuit().edges.contains_key(e),
            self.circuit().edges[e].source == at,
            forall|n: u32| #[trigger]
                self.circuit().nodes.contains_key(n) ==> code(n, true) < old(seen)@.len(),
            marks_ok(old(seen)@, old(marks)@),
            old(ends)@.len() <= old(marks)@.len(),
            self.ends_ok(node, old(ends)@),
            self.entries_ok(node, old(new_state)@, level + 1),
        ensures
            ends_apart(final(seen)@, final(ends)@),
            marks_ok(final(seen)@, final(marks)@),
            final(ends)@.len() <= final(marks)@.len(),
            self.ends_ok(node, final(ends)@),
            self.entries_ok(node, final(new_state)@, level + 1),
            grows(old(seen)@, final(seen)@),
            keeps(old(ends)@, final(ends)@),
            keeps(old(new_state)@, final(new_state)@),
            marked(
                final(seen)@,
                self.circuit().edges[e].target,
                self.circuit().edges[e].weight.side(),
            ),
            self.fresh_mark(
                old(seen)@,
                final(seen)@,
                self.circuit().edges[e].target,
                self.circuit().edges[e].weight.side(),
                final(ends)@,
                final(new_state)@,
            ),
            unmarked(final(seen)@) <= unmarked(old(seen)@),
            final(new_state)@.len() > old(new_state)@.len() ==> unmarked(final(seen)@) < unmarked(
                old(seen)@,
            ),
    {
        let ghost c = self.circuit();
        let size = seen.len();
        let to = graph_edge_endpoints(&self.blocks, e).unwrap().1;
        let weight = graph_edge_weight(&self.blocks, e).unwrap();
        assert(c.nodes.contains_key(to));
        assert(code(to, true) < size);
        let place: usize = if weight.is_side() {
            2 * (to as usize) + 1
        } else {
            2 * (to as usize)
        };
        assert(place == code(to, weight.side()));
        if !seen[place] {
            let ghost seen0 = seen@;
            let ghost ends0 = ends@;
            let ghost new0 = new_state@;
            let ghost marks0 = marks@;
            seen.set(place, true);
            marks.push(place);
            let total = so_far.add(&weight);
            let block = graph_node_weight(&self.blocks, to).unwrap();
            if self.probes.contains_node(to) || !block.is_redstone() {
                ends.push((to, total));
            }
            if block.is_redstone() {
                new_state.push((to, total));
            }
            proof {
                lemma_unmarked_mark(seen0, place as int);
                lemma_extend_path(c, node, at, so_far, e, level);
                crate::edge::lemma_join_wf(so_far, weight);
                assert(total.side() == weight.side());
                assert forall|q: Seq<u32>|
                    #![trigger wire_path(c, q, node)]
                    leads_to(c, q, node, to, total.side()) implies level + 1 <= q.len() by {
                    if q.len() <= level {
                        assert(marked(seen0, path_end(c, q), c.edges[q.last()].weight.side()));
                    }
                }
                assert(reached_in(c, node, to, total, level + 1));
                assert(found_first(c, node, to, total));
                assert forall|i: int| 0 <= i < ends@.len() implies marked(
                    seen@,
                    (#[trigger] ends@[i]).0,
                    ends@[i].1.side(),
                ) by {
                    if i < ends0.len() {
                        assert(ends@[i] == ends0[i]);
                        assert(marked(seen0, ends0[i].0, ends0[i].1.side()));
                    }
                }
                assert forall|i: int, j: int| 0 <= i < j < ends@.len() implies !((
                #[trigger] ends@[i]).0 == (#[trigger] ends@[j]).0 && ends@[i].1.side()
                    == ends@[j].1.side()) by {
                    assert(ends@[i] == ends0[i]);
                    assert(marked(seen0, ends0[i].0, ends0[i].1.side()));
                    if j < ends0.len() {
                        assert(ends@[j] == ends0[j]);
                    } else {
                        assert(ends@[j] == (to, total));
                        assert(!marked(seen0, to, total.side()));
                    }
                }
                assert forall|a: int| 0 <= a < marks@.len() implies marks@[a] < size
                    && seen@[marks@[a] as int] by {
                    if a < marks0.len() {
                        assert(marks@[a] == marks0[a]);
                    }
                }
                assert forall|i: int| 0 <= i < size && seen@[i] implies to_reset(marks@, 0, i) by {
                    if i == place {
                        assert(marks@[marks@.len() - 1] == place);
                    } else {
                        assert(seen0[i]);
                        assert(to_reset(marks0, 0, i));
                        let a = choose|a: int| 0 <= a < marks0.len() && marks0[a] == i;
                        assert(marks@[a] == i);
                    }
                }
                assert forall|i: int| 0 <= i < ends@.len() implies self.walk_end(
                    node,
                    #[trigger] ends@[i],
                ) by {
                    if i < ends0.len() {
                        assert(ends@[i] == ends0[i]);
                    }
                }
                assert forall|a: int| 0 <= a < new_state@.len() implies self.entry_ok(
                    node,
                    #[trigger] new_state@[a],
                    level + 1,
                ) by {
                    if a < new0.len() {
                        assert(new_state@[a] == new0[a]);
                    }
                }
                assert forall|y: u32, s: bool| #[trigger] marked(seen@, y, s) implies marked(
                    seen0,
                    y,
                    s,
                ) || (y == to && s == weight.side() && (self.ends_walk(to) ==> recorded(
                    ends@,
                    to,
                    weight.side(),
                )) && (c.nodes[to] is Redstone ==> listed(new_state@, 0, to))) by {
                    if !marked(seen0, y, s) {
                        assert(code(y, s) == place);
                        if self.ends_walk(to) {
                            assert(ends@[ends@.len() - 1] == (to, total));
                        }
                        if c.nodes[to] is Redstone {
                            assert(new_state@[new_state@.len() - 1].0 == to);
                        }
                    }
                }
            }
        }
    }

    /// Walks through the wire that `node` feeds and returns the nodes at
    /// which the wire ends, each with the weight of a walk that leads to
    /// it.
    ///
    /// The walk goes breadth first and comes to each pair of a node and
    /// a face once, so that of the walks to a node through a face the
    /// one found first gives the weight. `seen` holds a mark for each
    /// such pair; it comes and goes without marks.
    pub(crate) fn wire_ends(&self, node: u32, seen: &mut Vec<bool>) -> (ends: Vec<(u32, Edge)>)
        requires
            self.wf(),
            self.circuit().nodes.contains_key(node),
            forall|i: int| 0 <= i < old(seen)@.len() ==> !old(seen)@[i],
            forall|n: u32| #[trigger]
                self.circuit().nodes.contains_key(n) ==> code(n, true) < old(seen)@.len(),
        ensures
            final(seen)@ == old(seen)@,
            ends@.len() <= old(seen)@.len(),
            self.ends_ok(node, ends@),
            no_twins(ends@),
            forall|path: Seq<u32>|
                #![trigger wire_path(self.circuit(), path, node)]
                wire_path(self.circuit(), path, node) && self.ends_walk(
                    path_end(self.circuit(), path),
                ) ==> recorded(
                    ends@,
                    path_end(self.circuit(), path),
                    self.circuit().edges[path.last()].weight.side(),
                ),
    {
        let ghost c = self.circuit();
        let ghost size = seen@.len();
        let mut state: Vec<(u32, Edge)> = Vec::new();
        state.push((node, Edge::Rear(0)));
        let mut marks: Vec<usize> = Vec::new();
        let mut ends: Vec<(u32, Edge)> = Vec::new();
        let ghost mut expanded: Set<u32> = Set::empty();
        let ghost mut level: nat = 0;
        proof {
            lemma_unmarked_all(seen@);
            assert(state@[0].0 == node);
            assert(listed(state@, 0, node));
        }
        while state.len() > 0
            invariant
                self.wf(),
                c == self.circuit(),
                seen@.len() == size,
                forall|n: u32| #[trigger] c.nodes.contains_key(n) ==> code(n, true) < size,
                marks_ok(seen@, marks@),
                ends@.len() <= marks@.len(),
                self.ends_ok(node, ends@),
                self.entries_ok(node, state@, level),
                short_marked(c, node, seen@, level),
                ends_apart(seen@, ends@),
                closed(c, expanded, seen@),
                self.wires_tracked(seen@, expanded, state@, 0, Seq::empty()),
                self.ends_tracked(seen@, ends@),
                expanded.contains(node) || listed(state@, 0, node),
            decreases unmarked(seen@), state@.len(),
        {
            let ghost start = unmarked(seen@);
            let ghost seen_start = seen@;
            let mut new_state: Vec<(u32, Edge)> = Vec::new();
            let mut k: usize = 0;
            while k < state.len()
                invariant
                    k <= state@.len(),
                    self.wf(),
                    c == self.circuit(),
                    seen@.len() == size,
                    forall|n: u32| #[trigger] c.nodes.contains_key(n) ==> code(n, true) < size,
                    marks_ok(seen@, marks@),
                    ends@.len() <= marks@.len(),
                    self.ends_ok(node, ends@),
                    self.entries_ok(node, state@, level),
                    self.entries_ok(node, new_state@, level + 1),
                    short_marked(c, node, seen_start, level),
                    grows(seen_start, seen@),
                    self.wires_tracked(seen_start, expanded, state@, k as int, Seq::empty()),
                    ends_apart(seen@, ends@),
                    closed(c, expanded, seen@),
                    self.wires_tracked(seen@, expanded, state@, k as int, new_state@),
                    self.ends_tracked(seen@, ends@),
                    expanded.contains(node) || listed(state@, k as int, node),
                    unmarked(seen@) <= start,
                    new_state@.len() > 0 ==> unmarked(seen@) < start,
                decreases state@.len() - k,
            {
                let at = state[k].0;
                let so_far = state[k].1;
                assert(self.entry_ok(node, state@[k as int], level));
                let out = graph_edges_directed(&self.blocks, at, Direction::Outgoing);
                let mut j: usize = 0;
                while j < out.len()
                    invariant
                        j <= out@.len(),
                        k < state@.len(),
                        at == state@[k as int].0,
                        self.entry_ok(node, (at, so_far), level),
                        short_marked(c, node, seen_start, level),
                        grows(seen_start, seen@),
                        ends_apart(seen@, ends@),
                        forall|e: u32|
                            out@.contains(e) <==> (c.edges.contains_key(e) && c.edges[e].source
                                == at),
                        self.wf(),
                        c == self.circuit(),
                        seen@.len() == size,
                        forall|n: u32| #[trigger] c.nodes.contains_key(n) ==> code(n, true) < size,
                        marks_ok(seen@, marks@),
                        ends@.len() <= marks@.len(),
                        self.ends_ok(node, ends@),
                        self.entries_ok(node, new_state@, level + 1),
                        closed(c, expanded, seen@),
                        forall|a: int|
                            0 <= a < j ==> marked(
                                seen@,
                                c.edges[#[trigger] out@[a]].target,
                                c.edges[out@[a]].weight.side(),
                            ),
                        self.wires_tracked(seen@, expanded, state@, k as int, new_state@),
                        self.ends_tracked(seen@, ends@),
                        unmarked(seen@) <= start,
                        new_state@.len() > 0 ==> unmarked(seen@) < start,
                    decreases out@.len() - j,
                {
                    let e = out[j];
                    assert(out@.contains(e));
                    let ghost seen0 = seen@;
                    let ghost ends0 = ends@;
                    let ghost new0 = new_state@;
                    proof {
                        lemma_short_grows(c, node, seen_start, seen@, level);
                    }
                    self.follow_edge(
                        node,
                        at,
                        so_far,
                        e,
                        seen,
                        &mut marks,
                        &mut ends,
                        &mut new_state,
                        Ghost(level),
                    );
                    proof {
                        assert(grows(seen_start, seen@)) by {
                            assert forall|i: int| 0 <= i < seen_start.len() && seen_start[i]
                                implies seen@[i] by {
                                assert(seen0[i]);
                            }
                        }
                        self.lemma_followed(
                            seen0,
                            seen@,
                            ends0,
                            ends@,
                            new0,
                            new_state@,
                            expanded,
                            state@,
                            k as int,
                            c.edges[e].target,
                            c.edges[e].weight.side(),
                        );
                        assert forall|a: int| 0 <= a < j + 1 implies marked(
                            seen@,
                            c.edges[#[trigger] out@[a]].target,
                            c.edges[out@[a]].weight.side(),
                        ) by {
                            if a < j {
                                assert(marked(
                                    seen0,
                                    c.edges[out@[a]].target,
                                    c.edges[out@[a]].weight.side(),
                                ));
                            }
                        }
                    }
                    j = j + 1;
                }
                proof {
                    self.lemma_round_step(
                        node,
                        seen@,
                        seen_start,
                        expanded,
                        state@,
                        k as int,
                        new_state@,
                        out@,
                    );
                    expanded = expanded.insert(at);
                }
                k = k + 1;
            }
            proof {
                assert forall|y: u32| !listed(state@, k as int, y) by {}
                assert forall|y: u32| !listed(Seq::<(u32, Edge)>::empty(), 0, y) by {}
                self.lemma_next_level(node, seen_start, seen@, expanded, state@, level);
                level = level + 1;
            }
            state = new_state;
        }
        proof {
            assert forall|y: u32| !listed(state@, 0, y) by {}
            assert forall|y: u32| !listed(Seq::<(u32, Edge)>::empty(), 0, y) by {}
            lemma_unmarked_bound(seen@);
            assert forall|path: Seq<u32>|
                #![trigger wire_path(c, path, node)]
                wire_path(c, path, node) && self.ends_walk(path_end(c, path)) implies recorded(
                ends@,
                path_end(c, path),
                c.edges[path.last()].weight.side(),
            ) by {
                lemma_walk_marked(self, node, seen@, expanded, path, path.len() as int);
                assert(c.edges.contains_key(path[path.len() - 1]));
            }
        }
        let mut r: usize = 0;
        while r < marks.len()
            invariant
                r <= marks@.len(),
                seen@.len() == size,
                forall|a: int| 0 <= a < marks@.len() ==> marks@[a] < size,
                forall|i: int| 0 <= i < size && seen@[i] ==> to_reset(marks@, r as int, i),
            decreases marks@.len() - r,
        {
            let ghost seen0 = seen@;
            seen.set(marks[r], false);
            proof {
                assert forall|i: int| 0 <= i < size && seen@[i] implies to_reset(
                    marks@,
                    r + 1,
                    i,
                ) by {
                    assert(seen0[i]);
                    assert(to_reset(marks@, r as int, i));
                    let a = choose|a: int| r <= a < marks@.len() && 0 <= a && marks@[a] == i;
                    assert(a != r);
                }
            }
            r = r + 1;
        }
        assert(seen@ =~= old(seen)@);
        ends
    }

    /// What expanding one entry of a round keeps: its node joins the
    /// expanded ones, whose edges all have their targets marked, and
    /// the marked wire nodes stay expanded or listed.
    proof fn lemma_round_step(
        &self,
        node: u32,
        seen: Seq<bool>,
        seen_start: Seq<bool>,
        expanded: Set<u32>,
        state: Seq<(u32, Edge)>,
        k: int,
        new_state: Seq<(u32, Edge)>,
        out: Seq<u32>,
    )
        requires
            0 <= k < state.len(),
            forall|e: u32|
                out.contains(e) <==> (self.circuit().edges.contains_key(e)
                    && self.circuit().edges[e].source == state[k].0),
            forall|a: int|
                0 <= a < out.len() ==> marked(
                    seen,
                    self.circuit().edges[#[trigger] out[a]].target,
                    self.circuit().edges[out[a]].weight.side(),
                ),
            closed(self.circuit(), expanded, seen),
            self.wires_tracked(seen, expanded, state, k, new_state),
            self.wires_tracked(seen_start, expanded, state, k, Seq::empty()),
            expanded.contains(node) || listed(state, k, node),
        ensures
            closed(self.circuit(), expanded.insert(state[k].0), seen),
            self.wires_tracked(seen, expanded.insert(state[k].0), state, k + 1, new_state),
            self.wires_tracked(
                seen_start,
                expanded.insert(state[k].0),
                state,
                k + 1,
                Seq::empty(),
            ),
            expanded.insert(state[k].0).contains(node) || listed(state, k + 1, node),
    {
        let c = self.circuit();
        let at = state[k].0;
        let grown = expanded.insert(at);
        assert forall|e2: u32| #[trigger]
            c.edges.contains_key(e2) && grown.contains(c.edges[e2].source) implies marked(
            seen,
            c.edges[e2].target,
            c.edges[e2].weight.side(),
        ) by {
            if c.edges[e2].source == at {
                assert(out.contains(e2));
                let a = choose|a: int| 0 <= a < out.len() && out[a] == e2;
                assert(marked(seen, c.edges[out[a]].target, c.edges[out[a]].weight.side()));
            }
        }
        assert forall|y: u32| listed(state, k, y) && y != at implies listed(state, k + 1, y) by {
            let a = choose|a: int| k <= a < state.len() && 0 <= a && state[a].0 == y;
            assert(k + 1 <= a);
        }
        assert forall|y: u32|
            c.nodes.contains_key(y) && #[trigger] marked(seen, y, false)
                && c.nodes[y] is Redstone implies grown.contains(y) || listed(state, k + 1, y)
            || listed(new_state, 0, y) by {
            if listed(state, k, y) && y != at {
                assert(listed(state, k + 1, y));
            }
        }
        assert forall|y: u32|
            c.nodes.contains_key(y) && #[trigger] marked(seen_start, y, false)
                && c.nodes[y] is Redstone implies grown.contains(y) || listed(state, k + 1, y)
            || listed(Seq::<(u32, Edge)>::empty(), 0, y) by {
            if listed(state, k, y) && y != at {
                assert(listed(state, k + 1, y));
            }
        }
        if !expanded.contains(node) && node != at {
            assert(listed(state, k + 1, node));
        }
    }

    /// After a round the end of every walk of one edge more is marked:
    /// such a walk goes on from a wire node that was marked before the
    /// round and has been expanded in it, or starts at the start.
    proof fn lemma_next_level(
        &self,
        from: u32,
        seen_start: Seq<bool>,
        seen: Seq<bool>,
        expanded: Set<u32>,
        state: Seq<(u32, Edge)>,
        level: nat,
    )
        requires
            self.wf(),
            short_marked(self.circuit(), from, seen_start, level),
            grows(seen_start, seen),
            closed(self.circuit(), expanded, seen),
            expanded.contains(from),
            self.wires_tracked(seen_start, expanded, state, state.len() as int, Seq::empty()),
        ensures
            short_marked(self.circuit(), from, seen, level + 1),
    {
        let c = self.circuit();
        assert forall|path: Seq<u32>|
            #![trigger wire_path(c, path, from)]
            wire_path(c, path, from) && path.len() <= level + 1 implies marked(
            seen,
            path_end(c, path),
            c.edges[path.last()].weight.side(),
        ) by {
            let last = path[path.len() - 1];
            assert(c.edges.contains_key(last));
            if path.len() <= level {
                assert(marked(seen_start, path_end(c, path), c.edges[path.last()].weight.side()));
            } else if path.len() == 1 {
                assert(c.edges[path[0]].source == from);
            } else {
                lemma_walk_prefix(c, path, from);
                let p = path.drop_last();
                let x = path_end(c, p);
                assert(wire_path(c, p, from) && p.len() <= level);
                assert(marked(seen_start, x, c.edges[p.last()].weight.side()));
                assert(c.edges.contains_key(p.last()));
                assert(c.nodes.contains_key(x));
                assert(!c.edges[p.last()].weight.side());
                assert forall|y: u32| !listed(state, state.len() as int, y) by {}
                assert forall|y: u32| !listed(Seq::<(u32, Edge)>::empty(), 0, y) by {}
                assert(expanded.contains(x));
            }
        }
    }

    /// What following one edge keeps: the marks of expanded nodes stay
    /// closed, and the marked wire nodes and walk ends stay tracked.
    proof fn lemma_followed(
        &self,
        seen0: Seq<bool>,
        seen1: Seq<bool>,
        ends0: Seq<(u32, Edge)>,
        ends1: Seq<(u32, Edge)>,
        new0: Seq<(u32, Edge)>,
        new1: Seq<(u32, Edge)>,
        expanded: Set<u32>,
        state: Seq<(u32, Edge)>,
        k: int,
        to: u32,
        side: bool,
    )
        requires
            grows(seen0, seen1),
            keeps(ends0, ends1),
            keeps(new0, new1),
            self.fresh_mark(seen0, seen1, to, side, ends1, new1),
            closed(self.circuit(), expanded, seen0),
            self.wires_tracked(seen0, expanded, state, k, new0),
            self.ends_tracked(seen0, ends0),
        ensures
            closed(self.circuit(), expanded, seen1),
            self.wires_tracked(seen1, expanded, state, k, new1),
            self.ends_tracked(seen1, ends1),
    {
        let c = self.circuit();
        assert forall|e: u32| #[trigger]
            c.edges.contains_key(e) && expanded.contains(c.edges[e].source) implies marked(
            seen1,
            c.edges[e].target,
            c.edges[e].weight.side(),
        ) by {
            assert(marked(seen0, c.edges[e].target, c.edges[e].weight.side()));
        }
        assert forall|y: u32|
            c.nodes.contains_key(y) && #[trigger] marked(seen1, y, false)
                && c.nodes[y] is Redstone implies expanded.contains(y) || listed(state, k, y)
            || listed(new1, 0, y) by {
            if marked(seen0, y, false) {
                if listed(new0, 0, y) {
                    let a = choose|a: int| 0 <= a < new0.len() && new0[a].0 == y;
                    assert(new1[a].0 == y);
                }
            }
        }
        assert forall|y: u32, s: bool|
            c.nodes.contains_key(y) && #[trigger] marked(seen1, y, s) && self.ends_walk(
                y,
            ) implies recorded(ends1, y, s) by {
            if marked(seen0, y, s) {
                assert(recorded(ends0, y, s));
                let i = choose|i: int|
                    0 <= i < ends0.len() && ends0[i].0 == y && ends0[i].1.side() == s;
                assert(ends1[i] == ends0[i]);
            }
        }
    }
}

} // verus!
