//! Merging: one node takes the place of several that do the same work.

use crate::blocks::Block;
use crate::graph::{
    graph_edge_endpoints, graph_edge_weight, graph_edges_directed, graph_node_indices,
    graph_node_weight, graph_remove_node, Link,
};
use crate::world::World;
use crate::world_prune::{
    from_found, added, lemma_without_node, link_of, without_node, Shortcut,
};
use petgraph::Direction;
use vstd::prelude::*;

verus! {

/// Whether some edge of `edges` that starts at `from` has the target
/// and the weight of `link`.
pub open spec fn carried(edges: Map<u32, Link>, from: u32, link: Link) -> bool {
    exists|e: u32|
        edges.contains_key(e) && edges[e].source == from && edges[e].target == link.target
            && edges[e].weight == link.weight
}

/// Whether some edge of `edges` is `link`.
pub open spec fn holds_link(edges: Map<u32, Link>, link: Link) -> bool {
    exists|e: u32| edges.contains_key(e) && edges[e] == link
}

/// Whether some edge of `edges` whose source is no node of `nodes` has
/// the target and the weight of `link`.
pub open spec fn echoes_gone(edges: Map<u32, Link>, nodes: Map<u32, Block>, link: Link) -> bool {
    exists|e: u32|
        edges.contains_key(e) && !nodes.contains_key(edges[e].source) && edges[e].target
            == link.target && edges[e].weight == link.weight
}

/// Whether some edge of `edges` has the target and the weight of
/// `link`.
pub open spec fn echoes(edges: Map<u32, Link>, link: Link) -> bool {
    exists|e: u32|
        edges.contains_key(e) && edges[e].target == link.target && edges[e].weight == link.weight
}

/// Whether a block belongs to the group of key `key`: a torch to the
/// group of key 0, a repeater to the group whose key is its delay.
pub open spec fn keyed(b: Block, key: u8) -> bool {
    match b {
        Block::Torch(_) => key == 0,
        Block::Repeater(v) => key == v.delay,
        _ => false,
    }
}

/// Whether two blocks do the same work when they are fed the same: they
/// are torches, or repeaters of one delay.
pub open spec fn alike(a: Block, b: Block) -> bool {
    match (a, b) {
        (Block::Torch(_), Block::Torch(_)) => true,
        (Block::Repeater(x), Block::Repeater(y)) => x.delay == y.delay,
        _ => false,
    }
}

/// Whether `parent` feeds `n` and nothing else does: an edge leads from
/// `parent` to `n`, and no other edge ends at `n`.
pub open spec fn only_child(edges: Map<u32, Link>, parent: u32, n: u32) -> bool {
    &&& exists|e: u32| edges.contains_key(e) && edges[e].source == parent && edges[e].target == n
    &&& forall|a: u32, b: u32|
        edges.contains_key(a) && edges.contains_key(b) && edges[a].target == n && edges[b].target
            == n ==> a == b
}

/// Whether the candidates hold the node `n`.
pub open spec fn offered(candidates: Seq<(u8, u32)>, n: u32) -> bool {
    exists|k: int| 0 <= k < candidates.len() && candidates[k].1 == n
}

/// Whether the candidates hold the node `n` under the key `key`.
pub open spec fn offered_as(candidates: Seq<(u8, u32)>, key: u8, n: u32) -> bool {
    exists|k: int| 0 <= k < candidates.len() && candidates[k].1 == n && candidates[k].0 == key
}

/// Whether `n` is a repeater or a torch of `nodes`.
pub open spec fn mergeable(nodes: Map<u32, Block>, n: u32) -> bool {
    nodes.contains_key(n) && (nodes[n] is Repeater || nodes[n] is Torch)
}

impl World {
    /// Lets `first` take the place of `other`: each edge that starts at
    /// `other` and ends elsewhere starts at `first` instead, and `other`
    /// leaves the graph with what is left of its edges.
    fn absorb(&mut self, first: u32, other: u32)
        requires
            old(self).wf(),
            first != other,
            old(self).circuit().nodes.contains_key(first),
            mergeable(old(self).circuit().nodes, other),
        ensures
            final(self).wf(),
            old(self).same_but_graph(final(self)),
            final(self).circuit().nodes == old(self).circuit().nodes.remove(other),
            final(self).circuit().edges.dom().len() <= old(self).circuit().edges.dom().len(),
            forall|e: u32| #[trigger]
                old(self).circuit().edges.contains_key(e) && old(self).circuit().edges[e].source
                    != other && old(self).circuit().edges[e].target != other
                        ==> final(self).circuit().edges.contains_key(e)
                            && final(self).circuit().edges[e] == old(self).circuit().edges[e],
            forall|e: u32| #[trigger]
                final(self).circuit().edges.contains_key(e)
                    ==> (old(self).circuit().edges.contains_key(e)
                        && final(self).circuit().edges[e] == old(self).circuit().edges[e])
                            || (final(self).circuit().edges[e].source == first
                    && carried(old(self).circuit().edges, other, final(self).circuit().edges[e])),
            forall|e: u32| #[trigger]
                old(self).circuit().edges.contains_key(e) && old(self).circuit().edges[e].source
                    == other && old(self).circuit().edges[e].target != other ==> holds_link(
                    final(self).circuit().edges,
                    (Link {
                        source: first,
                        target: old(self).circuit().edges[e].target,
                        weight: old(self).circuit().edges[e].weight,
                    }),
                ),
    {
        let ghost c0 = self.circuit();
        let out = graph_edges_directed(&self.blocks, other, Direction::Outgoing);
        let mut moved: Vec<Shortcut> = Vec::new();
        let mut j: usize = 0;
        while j < out.len()
            invariant
                j <= out@.len(),
                c0 == self.circuit(),
                c0.wf(),
                crate::world::sided(c0),
                c0.nodes.contains_key(first),
                first != other,
                forall|e: u32|
                    out@.contains(e) <==> (c0.edges.contains_key(e) && c0.edges[e].source == other),
                moved@.len() <= j,
                forall|a: int|
                    0 <= a < moved@.len() ==> {
                        &&& (#[trigger] moved@[a]).source == first
                        &&& moved@[a].target != other
                        &&& carried(c0.edges, other, link_of(moved@[a]))
                        &&& Self::admits(c0, first, moved@[a].target, moved@[a].weight)
                    },
                forall|b: int|
                    0 <= b < j && c0.edges[out@[b]].target != other ==> from_found(
                        moved@,
                        moved@.len() as int,
                        (Link {
                            source: first,
                            target: c0.edges[#[trigger] out@[b]].target,
                            weight: c0.edges[out@[b]].weight,
                        }),
                    ),
            decreases out@.len() - j,
        {
            let e = out[j];
            assert(out@.contains(e));
            let to = graph_edge_endpoints(&self.blocks, e).unwrap().1;
            let weight = graph_edge_weight(&self.blocks, e).unwrap();
            let ghost moved0 = moved@;
            if to != other {
                moved.push(Shortcut { source: first, target: to, weight });
            }
            proof {
                assert forall|a: int| 0 <= a < moved@.len() implies (#[trigger] moved@[a]).source
                    == first && moved@[a].target != other && carried(
                    c0.edges,
                    other,
                    link_of(moved@[a]),
                ) && Self::admits(c0, first, moved@[a].target, moved@[a].weight) by {
                    if a < moved0.len() {
                        assert(moved@[a] == moved0[a]);
                    }
                }
                assert forall|b: int|
                    0 <= b < j + 1 && c0.edges[out@[b]].target != other implies from_found(
                    moved@,
                    moved@.len() as int,
                    (Link {
                        source: first,
                        target: c0.edges[#[trigger] out@[b]].target,
                        weight: c0.edges[out@[b]].weight,
                    }),
                ) by {
                    let l = Link {
                        source: first,
                        target: c0.edges[out@[b]].target,
                        weight: c0.edges[out@[b]].weight,
                    };
                    if b < j {
                        assert(from_found(moved0, moved0.len() as int, l));
                        let a = choose|a: int|
                            0 <= a < moved0.len() && link_of(moved0[a]) == l;
                        assert(link_of(moved@[a]) == l);
                    } else {
                        assert(link_of(moved@[moved@.len() - 1]) == l);
                    }
                }
            }
            j = j + 1;
        }
        let ghost before = *self;
        graph_remove_node(&mut self.blocks, other);
        proof {
            lemma_without_node(c0, other);
            assert(self.circuit() == without_node(c0, other));
            assert forall|m: u32| #[trigger] self.registered(m)
                implies self.circuit().nodes.contains_key(
            m) && self.circuit().nodes[m] is Redstone by {
                assert(before.registered(m));
            }
            assert forall|m: u32| #[trigger] self.is_constant(m)
                implies self.circuit().nodes[m] == crate::blocks::source_block() by {
                assert(before.is_constant(m));
                assert(before.registered(m));
                assert(before.circuit().nodes[m] == crate::blocks::source_block());
            }
            let gone = c0.outgoing(other);
            assert(out@.to_set() =~= gone);
            out@.unique_seq_to_set();
            let left = self.circuit().edges.dom();
            assert(left.subset_of(c0.edges.dom().difference(gone)));
            vstd::set_lib::lemma_len_subset(gone, c0.edges.dom());
            vstd::set_lib::lemma_set_difference_len(c0.edges.dom(), gone);
            assert(c0.edges.dom().intersect(gone) =~= gone);
            vstd::set_lib::lemma_len_subset(left, c0.edges.dom().difference(gone));
        }
        let ghost mid = self.circuit();
        self.add_shortcuts(&moved);
        proof {
            let fin = self.circuit();
            assert forall|e: u32| #[trigger]
                c0.edges.contains_key(e) && c0.edges[e].source != other && c0.edges[e].target
                    != other implies fin.edges.contains_key(e) && fin.edges[e] == c0.edges[e] by {
                assert(mid.edges.contains_key(e));
            }
            assert forall|e: u32| #[trigger] fin.edges.contains_key(e) implies (
            c0.edges.contains_key(e) && fin.edges[e] == c0.edges[e]) || (fin.edges[e].source
                == first && carried(c0.edges, other, fin.edges[e])) by {
                if !mid.edges.contains_key(e) {
                    assert(from_found(moved@, moved@.len() as int, fin.edges[e]));
                    let a = choose|a: int|
                        0 <= a < moved@.len() && link_of(moved@[a]) == fin.edges[e];
                    assert(moved@[a].source == first);
                }
            }
            assert forall|e: u32| #[trigger]
                c0.edges.contains_key(e) && c0.edges[e].source == other && c0.edges[e].target
                    != other implies holds_link(
                fin.edges,
                (Link { source: first, target: c0.edges[e].target, weight: c0.edges[e].weight }),
            ) by {
                let l = Link {
                    source: first,
                    target: c0.edges[e].target,
                    weight: c0.edges[e].weight,
                };
                assert(out@.contains(e));
                let b = choose|b: int| 0 <= b < out@.len() && out@[b] == e;
                assert(c0.edges[out@[b]].target != other);
                assert(from_found(moved@, moved@.len() as int, l));
                let a = choose|a: int| 0 <= a < moved@.len() && link_of(moved@[a]) == l;
                assert(added(mid.edges, fin.edges, link_of(moved@[a])));
            }
            vstd::set_lib::lemma_len_subset(
                Set::<u32>::empty(),
                fin.edges.dom(),
            );
        }
    }

    /// Merges the repeaters and torches of `nodes` into the first of
    /// them, and returns that one.
    ///
    /// Each of the others that is a repeater or a torch of the graph
    /// leaves it; the edges that started at it and ended at a node that
    /// stays start at the first node instead. Nothing happens when the
    /// first is no node of the graph.
    pub fn merge_nodes(&mut self, nodes: &Vec<u32>) -> (first: u32)
        requires
            old(self).wf(),
            nodes@.len() >= 1,
        ensures
            first == nodes@[0],
            final(self).wf(),
            old(self).same_but_graph(final(self)),
            final(self).circuit().edges.dom().len() <= old(self).circuit().edges.dom().len(),
            !old(self).circuit().nodes.contains_key(first) ==> final(self).circuit()
                == old(self).circuit(),
            forall|n: u32| #[trigger]
                final(self).circuit().nodes.contains_key(n)
                    ==> old(self).circuit().nodes.contains_key(n)
                        && final(self).circuit().nodes[n] == old(self).circuit().nodes[n],
            forall|n: u32|
                old(self).circuit().nodes.contains_key(n)
                    ==> (#[trigger] final(self).circuit().nodes.contains_key(n)
                        <==> !(old(self).circuit().nodes.contains_key(
                    first,
                ) && n != first && nodes@.contains(n) && mergeable(old(self).circuit().nodes, n))),
            forall|e: u32| #[trigger]
                old(self).circuit().edges.contains_key(e)
                    && final(self).circuit().nodes.contains_key(old(self).circuit(
                        ).edges[e].source)
                            && final(self).circuit().nodes.contains_key(old(self).circuit(
                                ).edges[e].target)
                                    ==> final(self).circuit().edges.contains_key(e)
                                        && final(self).circuit().edges[e]
                                            == old(self).circuit().edges[e],
            forall|e: u32| #[trigger]
                final(self).circuit().edges.contains_key(e)
                    ==> (old(self).circuit().edges.contains_key(e)
                        && final(self).circuit().edges[e] == old(self).circuit().edges[e])
                            || (final(self).circuit().edges[e].source == first
                    && echoes_gone(
                    old(self).circuit().edges,
                    final(self).circuit().nodes,
                    final(self).circuit().edges[e],
                )),
            forall|e: u32| #[trigger]
                old(self).circuit().edges.contains_key(e)
                    && !final(self).circuit().nodes.contains_key(old(self).circuit(
                        ).edges[e].source)
                            && final(self).circuit().nodes.contains_key(old(self).circuit(
                                ).edges[e].target) ==> holds_link(
                    final(self).circuit().edges,
                    (Link {
                        source: first,
                        target: old(self).circuit().edges[e].target,
                        weight: old(self).circuit().edges[e].weight,
                    }),
                ),
    {
        let first = nodes[0];
        let ghost c0 = self.circuit();
        if graph_node_weight(&self.blocks, first).is_none() {
            return first;
        }
        let mut i: usize = 1;
        while i < nodes.len()
            invariant
                1 <= i <= nodes@.len(),
                first == nodes@[0],
                c0 == old(self).circuit(),
                old(self).wf(),
                self.wf(),
                old(self).same_but_graph(self),
                c0.nodes.contains_key(first),
                self.circuit().nodes.contains_key(first),
                self.circuit().edges.dom().len() <= c0.edges.dom().len(),
                forall|n: u32| #[trigger]
                    self.circuit().nodes.contains_key(n) ==> c0.nodes.contains_key(n)
                        && self.circuit().nodes[n] == c0.nodes[n],
                forall|n: u32|
                    c0.nodes.contains_key(n) ==> (#[trigger] self.circuit().nodes.contains_key(n)
                        <==> !(n != first && nodes@.take(i as int).contains(n) && mergeable(
                        c0.nodes,
                        n,
                    ))),
                forall|e: u32| #[trigger]
                    c0.edges.contains_key(e) && self.circuit().nodes.contains_key(
                        c0.edges[e].source,
                    ) && self.circuit().nodes.contains_key(c0.edges[e].target)
                        ==> self.circuit().edges.contains_key(e) && self.circuit().edges[e]
                        == c0.edges[e],
                forall|e: u32| #[trigger]
                    self.circuit().edges.contains_key(e) ==> (c0.edges.contains_key(e)
                        && self.circuit().edges[e] == c0.edges[e]) || (
                    self.circuit().edges[e].source == first && echoes_gone(
                        c0.edges,
                        self.circuit().nodes,
                        self.circuit().edges[e],
                    )),
                forall|e: u32| #[trigger]
                    c0.edges.contains_key(e) && !self.circuit().nodes.contains_key(
                        c0.edges[e].source,
                    ) && self.circuit().nodes.contains_key(c0.edges[e].target) ==> holds_link(
                        self.circuit().edges,
                        (Link {
                            source: first,
                            target: c0.edges[e].target,
                            weight: c0.edges[e].weight,
                        }),
                    ),
            decreases nodes@.len() - i,
        {
            let other = nodes[i];
            let ghost cur = self.circuit();
            let ghost seen = nodes@.take(i as int);
            let ghost next = nodes@.take(i + 1);
            proof {
                assert(next =~= seen.push(other));
                assert forall|n: u32| next.contains(n) <==> (seen.contains(n) || n == other) by {
                    if next.contains(n) {
                        let a = choose|a: int| 0 <= a < next.len() && next[a] == n;
                        if a < seen.len() {
                            assert(seen[a] == n);
                        }
                    }
                    if seen.contains(n) {
                        let a = choose|a: int| 0 <= a < seen.len() && seen[a] == n;
                        assert(next[a] == n);
                    }
                    if n == other {
                        assert(next[next.len() - 1] == n);
                    }
                }
            }
            let fit = other != first && match graph_node_weight(&self.blocks, other) {
                Some(Block::Repeater(_)) => true,
                Some(Block::Torch(_)) => true,
                _ => false,
            };
            if fit {
                self.absorb(first, other);
                proof {
                    let now = self.circuit();
                    assert forall|e: u32| #[trigger]
                        c0.edges.contains_key(e) && now.nodes.contains_key(c0.edges[e].source)
                            && now.nodes.contains_key(c0.edges[e].target)
                                implies now.edges.contains_key(
                    e) && now.edges[e] == c0.edges[e] by {
                        assert(cur.edges.contains_key(e));
                    }
                    assert forall|e: u32| #[trigger] now.edges.contains_key(e) implies (
                    c0.edges.contains_key(e) && now.edges[e] == c0.edges[e]) || (
                    now.edges[e].source == first && echoes_gone(c0.edges, now.nodes, now.edges[e]))
                    by {
                        if cur.edges.contains_key(e) && now.edges[e] == cur.edges[e] {
                            if !(c0.edges.contains_key(e) && cur.edges[e] == c0.edges[e]) {
                                let e0 = choose|e0: u32|
                                    c0.edges.contains_key(e0) && !cur.nodes.contains_key(
                                        c0.edges[e0].source,
                                    ) && c0.edges[e0].target == cur.edges[e].target
                                        && c0.edges[e0].weight == cur.edges[e].weight;
                                assert(!now.nodes.contains_key(c0.edges[e0].source));
                            }
                        } else {
                            let e1 = choose|e1: u32|
                                cur.edges.contains_key(e1) && cur.edges[e1].source == other
                                    && cur.edges[e1].target == now.edges[e].target
                                    && cur.edges[e1].weight == now.edges[e].weight;
                            assert(c0.edges.contains_key(e1) && cur.edges[e1] == c0.edges[e1]);
                            assert(!now.nodes.contains_key(c0.edges[e1].source));
                        }
                    }
                    assert forall|e: u32| #[trigger]
                        c0.edges.contains_key(e) && !now.nodes.contains_key(c0.edges[e].source)
                            && now.nodes.contains_key(c0.edges[e].target) implies holds_link(
                        now.edges,
                        (Link {
                            source: first,
                            target: c0.edges[e].target,
                            weight: c0.edges[e].weight,
                        }),
                    ) by {
                        let l = Link {
                            source: first,
                            target: c0.edges[e].target,
                            weight: c0.edges[e].weight,
                        };
                        assert(c0.nodes.contains_key(c0.edges[e].source));
                        if c0.edges[e].source == other {
                            assert(cur.edges.contains_key(e));
                            assert(cur.edges[e] == c0.edges[e]);
                        } else {
                            assert(!cur.nodes.contains_key(c0.edges[e].source));
                            assert(holds_link(cur.edges, l));
                            let e2 = choose|e2: u32| cur.edges.contains_key(e2)
                                && cur.edges[e2] == l;
                            assert(now.edges.contains_key(e2) && now.edges[e2] == l);
                        }
                    }
                }
            } else {
                proof {
                    assert(!(other != first && mergeable(c0.nodes, other))
                        || !cur.nodes.contains_key(other)) by {
                        if cur.nodes.contains_key(other) {
                            assert(cur.nodes[other] == c0.nodes[other]);
                        }
                    }
                    assert(c0.nodes.contains_key(other) && other != first && mergeable(
                        c0.nodes,
                        other,
                    ) ==> seen.contains(other));
                }
            }
            i = i + 1;
        }
        proof {
            assert(nodes@.take(nodes@.len() as int) =~= nodes@);
        }
        first
    }
    /// The repeaters and torches that `idx` feeds and nothing else
    /// does, each with the key of its group: 0 for a torch, the delay
    /// for a repeater.
    pub fn merge_candidates(&self, idx: u32) -> (r: Vec<(u8, u32)>)
        requires
            self.wf(),
        ensures
            forall|k: int|
                0 <= k < r@.len() ==> {
                    &&& self.circuit().nodes.contains_key((#[trigger] r@[k]).1)
                    &&& keyed(self.circuit().nodes[r@[k].1], r@[k].0)
                    &&& only_child(self.circuit().edges, idx, r@[k].1)
                },
            forall|n: u32|
                mergeable(self.circuit().nodes, n) && only_child(self.circuit().edges, idx, n)
                    ==> offered(r@, n),
    {
        let ghost c = self.circuit();
        let out = graph_edges_directed(&self.blocks, idx, Direction::Outgoing);
        let mut r: Vec<(u8, u32)> = Vec::new();
        let mut j: usize = 0;
        while j < out.len()
            invariant
                j <= out@.len(),
                self.wf(),
                c == self.circuit(),
                forall|e: u32|
                    out@.contains(e) <==> (c.edges.contains_key(e) && c.edges[e].source == idx),
                forall|k: int|
                    0 <= k < r@.len() ==> {
                        &&& c.nodes.contains_key((#[trigger] r@[k]).1)
                        &&& keyed(c.nodes[r@[k].1], r@[k].0)
                        &&& only_child(c.edges, idx, r@[k].1)
                    },
                forall|a: int|
                    0 <= a < j && mergeable(c.nodes, c.edges[#[trigger] out@[a]].target)
                        && only_child(c.edges, idx, c.edges[out@[a]].target) ==> offered(
                        r@,
                        c.edges[out@[a]].target,
                    ),
            decreases out@.len() - j,
        {
            let e = out[j];
            assert(out@.contains(e));
            let to = graph_edge_endpoints(&self.blocks, e).unwrap().1;
            let feeders = graph_edges_directed(&self.blocks, to, Direction::Incoming);
            let ghost before = r@;
            proof {
                assert(feeders@.contains(e));
                if feeders@.len() <= 1 {
                    assert forall|a: u32, b: u32|
                        c.edges.contains_key(a) && c.edges.contains_key(b) && c.edges[a].target
                            == to && c.edges[b].target == to implies a == b by {
                        assert(feeders@.contains(a) && feeders@.contains(b));
                        let x = choose|x: int| 0 <= x < feeders@.len() && feeders@[x] == a;
                        let y = choose|y: int| 0 <= y < feeders@.len() && feeders@[y] == b;
                        assert(x == y);
                    }
                    assert(only_child(c.edges, idx, to));
                } else {
                    assert(!only_child(c.edges, idx, to)) by {
                        assert(feeders@.contains(feeders@[0]) && feeders@.contains(feeders@[1]));
                        assert(feeders@[0] != feeders@[1]);
                    }
                }
            }
            if feeders.len() <= 1 {
                match graph_node_weight(&self.blocks, to) {
                    Some(Block::Repeater(v)) => {
                        r.push((v.delay(), to));
                    },
                    Some(Block::Torch(_)) => {
                        r.push((0, to));
                    },
                    _ => {},
                }
            }
            proof {
                assert forall|k: int| 0 <= k < r@.len() implies c.nodes.contains_key(
                    (#[trigger] r@[k]).1,
                ) && keyed(c.nodes[r@[k].1], r@[k].0) && only_child(c.edges, idx, r@[k].1) by {
                    if k < before.len() {
                        assert(r@[k] == before[k]);
                    }
                }
                assert forall|a: int|
                    0 <= a < j + 1 && mergeable(c.nodes, c.edges[#[trigger] out@[a]].target)
                        && only_child(c.edges, idx, c.edges[out@[a]].target) implies offered(
                    r@,
                    c.edges[out@[a]].target,
                ) by {
                    let n = c.edges[out@[a]].target;
                    if a < j {
                        assert(offered(before, n));
                        let k = choose|k: int| 0 <= k < before.len() && before[k].1 == n;
                        assert(r@[k].1 == n);
                    } else {
                        assert(r@[r@.len() - 1].1 == n);
                    }
                }
            }
            j = j + 1;
        }
        proof {
            assert forall|n: u32|
                mergeable(c.nodes, n) && only_child(c.edges, idx, n) implies offered(r@, n) by {
                let e = choose|e: u32|
                    c.edges.contains_key(e) && c.edges[e].source == idx && c.edges[e].target == n;
                assert(out@.contains(e));
                let a = choose|a: int| 0 <= a < out@.len() && out@[a] == e;
                assert(c.edges[out@[a]].target == n);
            }
        }
        r
    }

    /// Merges siblings that do the same work.
    ///
    /// Starting from each repeater and torch, the repeaters and torches
    /// that it feeds and nothing else does are put into groups, the
    /// torches in one and the repeaters in one for each delay. A group
    /// of two or more becomes one node, which is looked at in turn.
    pub fn prune_groups(&mut self)
        requires
            old(self).wf(),
        ensures
            final(self).wf(),
            old(self).same_but_graph(final(self)),
            final(self).circuit().edges.dom().len() <= old(self).circuit().edges.dom().len(),
            forall|n: u32| #[trigger]
                final(self).circuit().nodes.contains_key(n)
                    ==> old(self).circuit().nodes.contains_key(n)
                    && final(self).circuit().nodes[n] == old(self).circuit().nodes[n],
            forall|n: u32|
                old(self).circuit().nodes.contains_key(n)
                    && !(#[trigger] final(self).circuit().nodes.contains_key(n))
                    ==> mergeable(old(self).circuit().nodes, n),
            forall|e: u32| #[trigger]
                final(self).circuit().edges.contains_key(e) ==> echoes(
                    old(self).circuit().edges,
                    final(self).circuit().edges[e],
                ),
            crate::siblings::edges_kept(old(self).circuit(), final(self).circuit()),
            crate::siblings::all_taken_over(old(self).circuit(), final(self).circuit()),
            crate::siblings::all_were_siblings(old(self).circuit(), final(self).circuit()),
            forall|p: u32| #[trigger]
                mergeable(final(self).circuit().nodes, p) ==> crate::siblings::settled(
                    final(self).circuit(),
                    p,
                ),
    {
        let ghost c0 = self.circuit();
        let ids = graph_node_indices(&self.blocks);
        let mut todo: Vec<u32> = Vec::new();
        let mut i: usize = 0;
        while i < ids.len()
            invariant
                i <= ids@.len(),
                c0 == self.circuit(),
                forall|j: int|
                    0 <= j < i && mergeable(c0.nodes, #[trigger] ids@[j]) ==> todo@.contains(
                        ids@[j],
                    ),
            decreases ids@.len() - i,
        {
            let ghost listed = todo@;
            match graph_node_weight(&self.blocks, ids[i]) {
                Some(Block::Repeater(_)) => {
                    todo.push(ids[i]);
                },
                Some(Block::Torch(_)) => {
                    todo.push(ids[i]);
                },
                _ => {},
            }
            proof {
                assert forall|j: int|
                    0 <= j < i + 1 && mergeable(c0.nodes, #[trigger] ids@[j])
                        implies todo@.contains(ids@[j]) by {
                    if j < i {
                        let a = choose|a: int| 0 <= a < listed.len() && listed[a] == ids@[j];
                        assert(todo@[a] == ids@[j]);
                    } else {
                        assert(todo@[todo@.len() - 1] == ids@[j]);
                    }
                }
            }
            i = i + 1;
        }
        proof {
            assert forall|p: u32| #[trigger] mergeable(c0.nodes, p) implies todo@.contains(p) by {
                assert(ids@.contains(p));
                let j = choose|j: int| 0 <= j < ids@.len() && ids@[j] == p;
                assert(mergeable(c0.nodes, ids@[j]));
            }
        }
        while todo.len() > 0
            invariant
                crate::siblings::watched(self.circuit(), todo@),
                c0 == old(self).circuit(),
                old(self).wf(),
                self.wf(),
                old(self).same_but_graph(self),
                self.circuit().edges.dom().len() <= c0.edges.dom().len(),
                forall|n: u32| #[trigger]
                    self.circuit().nodes.contains_key(n) ==> c0.nodes.contains_key(n)
                        && self.circuit().nodes[n] == c0.nodes[n],
                forall|n: u32|
                    c0.nodes.contains_key(n) && !(#[trigger] self.circuit().nodes.contains_key(n))
                        ==> mergeable(c0.nodes, n),
                forall|e: u32| #[trigger]
                    self.circuit().edges.contains_key(e) ==> echoes(
                        c0.edges,
                        self.circuit().edges[e],
                    ),
                crate::siblings::edges_kept(c0, self.circuit()),
                crate::siblings::all_taken_over(c0, self.circuit()),
                crate::siblings::all_were_siblings(c0, self.circuit()),
            decreases self.circuit().nodes.dom().len(), todo@.len(),
        {
            let ghost listed = todo@;
            let idx = todo.pop().unwrap();
            let candidates = self.merge_candidates(idx);
            let ghost round = self.circuit();
            proof {
                crate::siblings::lemma_round_start(
                    self.circuit(),
                    listed,
                    todo@,
                    candidates@,
                    idx,
                );
                assert forall|k: int| 0 <= k < candidates@.len() implies c0.nodes.contains_key(
                    (#[trigger] candidates@[k]).1,
                ) && keyed(c0.nodes[candidates@[k].1], candidates@[k].0) by {
                    assert(self.circuit().nodes.contains_key(candidates@[k].1));
                }
            }
            let ghost size = self.circuit().nodes.dom().len();
            let ghost rest = todo@.len();
            let mut key: u8 = 0;
            while key <= 4
                invariant
                    key <= 5,
                    crate::siblings::round(self.circuit(), todo@, candidates@, idx, key),
                    c0 == old(self).circuit(),
                    old(self).wf(),
                    self.wf(),
                    old(self).same_but_graph(self),
                    self.circuit().edges.dom().len() <= c0.edges.dom().len(),
                    forall|n: u32| #[trigger]
                        self.circuit().nodes.contains_key(n) ==> c0.nodes.contains_key(n)
                            && self.circuit().nodes[n] == c0.nodes[n],
                    forall|n: u32|
                        c0.nodes.contains_key(n) && !(#[trigger] self.circuit().nodes.contains_key(
                            n,
                        )) ==> mergeable(c0.nodes, n),
                    forall|e: u32| #[trigger]
                        self.circuit().edges.contains_key(e) ==> echoes(
                            c0.edges,
                            self.circuit().edges[e],
                        ),
                    crate::siblings::edges_kept(c0, self.circuit()),
                    crate::siblings::all_taken_over(c0, self.circuit()),
                    crate::siblings::all_were_siblings(c0, self.circuit()),
                    round.wf(),
                    crate::siblings::stage(c0, round),
                    forall|k: int|
                        0 <= k < candidates@.len() ==> {
                            &&& round.nodes.contains_key((#[trigger] candidates@[k]).1)
                            &&& keyed(round.nodes[candidates@[k].1], candidates@[k].0)
                            &&& only_child(round.edges, idx, candidates@[k].1)
                        },
                    forall|k: int|
                        0 <= k < candidates@.len() ==> c0.nodes.contains_key(
                            (#[trigger] candidates@[k]).1,
                        ) && keyed(c0.nodes[candidates@[k].1], candidates@[k].0),
                    self.circuit().nodes.dom().len() <= size,
                    todo@.len() >= rest,
                    todo@.len() > rest ==> self.circuit().nodes.dom().len() < size,
                decreases 5 - key,
            {
                let mut group: Vec<u32> = Vec::new();
                let mut k: usize = 0;
                while k < candidates.len()
                    invariant
                        k <= candidates@.len(),
                        forall|g: int|
                            0 <= g < group@.len() ==> offered_as(
                                candidates@,
                                key,
                                #[trigger] group@[g],
                            ),
                        forall|a: int|
                            0 <= a < k && (#[trigger] candidates@[a]).0 == key
                                ==> group@.contains(candidates@[a].1),
                    decreases candidates@.len() - k,
                {
                    let ghost before = group@;
                    if candidates[k].0 == key {
                        group.push(candidates[k].1);
                    }
                    proof {
                        assert forall|a: int|
                            0 <= a < k + 1 && (#[trigger] candidates@[a]).0 == key
                                implies group@.contains(candidates@[a].1) by {
                            if a < k {
                                let g = choose|g: int|
                                    0 <= g < before.len() && before[g] == candidates@[a].1;
                                assert(group@[g] == candidates@[a].1);
                            } else {
                                assert(group@[group@.len() - 1] == candidates@[a].1);
                            }
                        }
                        assert forall|g: int| 0 <= g < group@.len() implies offered_as(
                            candidates@,
                            key,
                            #[trigger] group@[g],
                        ) by {
                            if g < before.len() {
                                assert(group@[g] == before[g]);
                            }
                        }
                    }
                    k = k + 1;
                }
                if group.len() > 1 {
                    let ghost cur = self.circuit();
                    let count = self.node_count();
                    let first = self.merge_nodes(&group);
                    proof {
                        let now = self.circuit();
                        assert(now.nodes.dom().subset_of(cur.nodes.dom())) by {
                            assert forall|n: u32| now.nodes.dom().contains(n)
                                implies cur.nodes.dom().contains(
                            n) by {
                                assert(now.nodes.contains_key(n));
                            }
                        }
                        vstd::set_lib::lemma_len_subset(now.nodes.dom(), cur.nodes.dom());
                        assert forall|n: u32|
                            c0.nodes.contains_key(n) && !(#[trigger] now.nodes.contains_key(
                                n,
                            )) implies mergeable(c0.nodes, n) by {
                            if cur.nodes.contains_key(n) {
                                assert(cur.nodes[n] == c0.nodes[n]);
                            }
                        }
                        assert forall|g: int| 0 <= g < group@.len() implies c0.nodes.contains_key(
                            #[trigger] group@[g],
                        ) && keyed(c0.nodes[group@[g]], key) by {
                            assert(offered_as(candidates@, key, group@[g]));
                            let k = choose|k: int|
                                0 <= k < candidates@.len() && candidates@[k].1 == group@[g]
                                    && candidates@[k].0 == key;
                            assert(keyed(c0.nodes[candidates@[k].1], candidates@[k].0));
                        }
                        assert(crate::siblings::merged(cur, now, first, group@));
                        crate::siblings::lemma_taken_over(c0, cur, now, first, group@, key);
                        crate::siblings::lemma_were_siblings(
                            c0,
                            round,
                            cur,
                            now,
                            first,
                            group@,
                            key,
                            candidates@,
                            idx,
                        );
                        assert forall|e: u32| #[trigger] now.edges.contains_key(e) implies echoes(
                            c0.edges,
                            now.edges[e],
                        ) by {
                            if cur.edges.contains_key(e) && now.edges[e] == cur.edges[e] {
                                assert(echoes(c0.edges, cur.edges[e]));
                            } else {
                                let e1 = choose|e1: u32|
                                    cur.edges.contains_key(e1) && !now.nodes.contains_key(
                                        cur.edges[e1].source,
                                    ) && cur.edges[e1].target == now.edges[e].target
                                        && cur.edges[e1].weight == now.edges[e].weight;
                                assert(echoes(c0.edges, cur.edges[e1]));
                                let e0 = choose|e0: u32|
                                    c0.edges.contains_key(e0) && c0.edges[e0].target
                                        == cur.edges[e1].target && c0.edges[e0].weight
                                        == cur.edges[e1].weight;
                                assert(c0.edges[e0].target == now.edges[e].target);
                            }
                        }
                    }
                    let ghost waiting = todo@;
                    if self.node_count() < count {
                        todo.push(first);
                    }
                    proof {
                        let now = self.circuit();
                        if todo@ == waiting {
                            vstd::set_lib::lemma_subset_equality(
                                now.nodes.dom(),
                                cur.nodes.dom(),
                            );
                        }
                        assert(crate::siblings::merged(cur, now, first, group@));
                        crate::siblings::lemma_round_merge(
                            cur,
                            now,
                            waiting,
                            todo@,
                            candidates@,
                            idx,
                            key,
                            group@,
                            first,
                        );
                    }
                } else {
                    proof {
                        crate::siblings::lemma_round_skip(
                            self.circuit(),
                            todo@,
                            candidates@,
                            idx,
                            key,
                            group@,
                        );
                    }
                }
                key = key + 1;
            }
            proof {
                crate::siblings::lemma_round_end(self.circuit(), todo@, candidates@, idx);
            }
        }
    }
}

} // verus!
