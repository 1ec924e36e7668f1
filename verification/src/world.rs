//! The world: the block graph of a circuit together with the names of
//! its probes and triggers and the work that the next tick has to do.

use crate::blocks::{any_input, redstone_source, source_block, Block, OutputPower};
use crate::edge::{Edge, MAX_POWER};
use crate::graph::{
    circuit, graph_add_edge, graph_add_node, graph_edge_count, graph_edge_endpoints,
    graph_edge_indices, graph_edge_weight, graph_new, graph_node_count, graph_node_indices,
    graph_node_weight, graph_set_node_weight, input_power, BlockGraph, Circuit, Link,
    GRAPH_LIMIT,
};
use crate::order::lists;
use crate::names::{registers, NameTable};
use vstd::prelude::*;

verus! {

pub struct World {
    /// The graph of the circuit.
    pub blocks: BlockGraph,
    /// The nodes that can be observed, by name.
    pub probes: NameTable,
    /// The nodes that take input pulses, by name.
    pub triggers: NameTable,
    /// The nodes that put out the full signal at all times.
    pub constants: Vec<u32>,
    /// The nodes that the next tick has to look at.
    pub updatable: Vec<u32>,
    /// The number of the tick that comes next.
    pub tick_counter: usize,
}

/// Whether every side edge of the circuit ends at a repeater or a
/// comparator: the two kinds of block that have a side face.
pub open spec fn sided(c: Circuit) -> bool {
    forall|e: u32| #[trigger]
        c.edges.contains_key(e) && c.edges[e].weight.side() ==> {
            ||| c.nodes[c.edges[e].target] is Repeater
            ||| c.nodes[c.edges[e].target] is Comparator
        }
}

/// What holds of every well-formed world: no edge loses more than the
/// largest signal strength; no block puts out more than that; the
/// counter of each repeater is below its delay, which is at most 4;
/// side edges end at repeaters and comparators; and a probe or trigger
/// name stands for one node, which goes by no other name.
pub proof fn lemma_world_invariants(w: &World)
    requires
        w.wf(),
    ensures
        forall|e: u32| #[trigger]
            w.circuit().edges.contains_key(e) ==> w.circuit().edges[e].weight.loss() <= MAX_POWER,
        forall|n: u32| #[trigger]
            w.circuit().nodes.contains_key(n) ==> w.circuit().nodes[n].power() <= MAX_POWER,
        forall|n: u32| #[trigger]
            w.circuit().nodes.contains_key(n) ==> (w.circuit().nodes[n] matches Block::Repeater(r)
                ==> r.count < r.delay <= 4),
        forall|e: u32| #[trigger]
            w.circuit().edges.contains_key(e) && w.circuit().edges[e].weight.side() ==> (
            w.circuit().nodes[w.circuit().edges[e].target] is Repeater
                || w.circuit().nodes[w.circuit().edges[e].target] is Comparator),
        forall|n1: u32, s1: Seq<char>, n2: u32, s2: Seq<char>|
            w.probes.pairs(n1, s1) && w.probes.pairs(n2, s2) ==> (n1 == n2 <==> s1 == s2),
        forall|n1: u32, s1: Seq<char>, n2: u32, s2: Seq<char>|
            w.triggers.pairs(n1, s1) && w.triggers.pairs(n2, s2) ==> (n1 == n2 <==> s1 == s2),
{
    assert forall|n: u32| #[trigger] w.circuit().nodes.contains_key(n)
        implies w.circuit().nodes[n].power()
        <= MAX_POWER by {
        assert(w.circuit().nodes[n].wf());
    }
    assert forall|n: u32| #[trigger] w.circuit().nodes.contains_key(n) implies (
    w.circuit().nodes[n] matches Block::Repeater(r) ==> r.count < r.delay <= 4) by {
        assert(w.circuit().nodes[n].wf());
    }
    assert forall|n1: u32, s1: Seq<char>, n2: u32, s2: Seq<char>|
        w.probes.pairs(n1, s1) && w.probes.pairs(n2, s2) implies (n1 == n2 <==> s1 == s2) by {
        crate::names::lemma_table_bijection(w.probes, n1, s1, n2, s2);
    }
    assert forall|n1: u32, s1: Seq<char>, n2: u32, s2: Seq<char>|
        w.triggers.pairs(n1, s1) && w.triggers.pairs(n2, s2) implies (n1 == n2 <==> s1
        == s2) by {
        crate::names::lemma_table_bijection(w.triggers, n1, s1, n2, s2);
    }
}

impl World {
    /// The nodes and edges of the world's graph.
    pub open spec fn circuit(&self) -> Circuit {
        circuit(self.blocks)
    }

    /// Whether `n` is a constant source.
    pub open spec fn is_constant(&self, n: u32) -> bool {
        self.constants@.contains(n)
    }

    /// Whether `n` is registered: a probe, a trigger or a constant
    /// source.
    pub open spec fn registered(&self, n: u32) -> bool {
        self.probes.has_node(n) || self.triggers.has_node(n) || self.is_constant(n)
    }

    /// Whether the registered nodes are wire nodes of circuit `c`.
    pub open spec fn registry_in(&self, c: Circuit) -> bool {
        forall|n: u32| #[trigger]
            self.registered(n) ==> c.nodes.contains_key(n) && c.nodes[n] is Redstone
    }

    /// Whether the constant sources hold the full signal in circuit
    /// `c`.
    pub open spec fn sources_held(&self, c: Circuit) -> bool {
        forall|n: u32| #[trigger] self.is_constant(n) ==> c.nodes[n] == source_block()
    }

    /// A world is well formed when its circuit is, side edges end at
    /// blocks with a side face, each name table is a bijection, each
    /// registered node is a wire node of the graph, and each constant
    /// source holds the full signal.
    pub open spec fn wf(&self) -> bool {
        &&& self.circuit().wf()
        &&& sided(self.circuit())
        &&& self.probes.wf()
        &&& self.triggers.wf()
        &&& self.registry_in(self.circuit())
        &&& self.sources_held(self.circuit())
    }

    /// What the probe called `name` reads: whether a signal reaches the
    /// node of that name. A name that the world does not know reads
    /// `false`.
    pub open spec fn reads(&self, name: Seq<char>) -> bool {
        self.probes.has_name(name) && any_input(
            self.circuit().rear_input(self.probes.node_of(name)),
            self.circuit().side_input(self.probes.node_of(name)),
        ) > 0
    }

    /// A world without blocks.
    pub fn new() -> (w: World)
        ensures
            w.wf(),
            w.circuit().nodes =~= Map::empty(),
            w.circuit().edges =~= Map::empty(),
            w.probes.entries@.len() == 0,
            w.triggers.entries@.len() == 0,
            w.constants@.len() == 0,
            w.updatable@.len() == 0,
            w.tick_counter == 0,
    {
        let w = World {
            blocks: graph_new(),
            probes: NameTable::new(),
            triggers: NameTable::new(),
            constants: Vec::new(),
            updatable: Vec::new(),
            tick_counter: 0,
        };
        assert(w.circuit().nodes.dom() =~= Set::empty());
        assert(w.circuit().edges.dom() =~= Set::empty());
        w
    }

    pub fn node_count(&self) -> (n: usize)
        ensures
            n == self.circuit().nodes.dom().len(),
    {
        graph_node_count(&self.blocks)
    }

    pub fn edge_count(&self) -> (n: usize)
        ensures
            n == self.circuit().edges.dom().len(),
    {
        graph_edge_count(&self.blocks)
    }

    /// The block of node `idx`, if there is such a node.
    pub fn block(&self, idx: u32) -> (r: Option<Block>)
        ensures
            r == if self.circuit().nodes.contains_key(idx) {
                Some(self.circuit().nodes[idx])
            } else {
                None
            },
    {
        graph_node_weight(&self.blocks, idx)
    }

    /// The edge of index `id`, if there is such an edge.
    pub fn edge(&self, id: u32) -> (r: Option<Link>)
        ensures
            r == if self.circuit().edges.contains_key(id) {
                Some(self.circuit().edges[id])
            } else {
                None
            },
    {
        match (graph_edge_endpoints(&self.blocks, id), graph_edge_weight(&self.blocks, id)) {
            (Some(ends), Some(weight)) => Some(Link { source: ends.0, target: ends.1, weight }),
            _ => None,
        }
    }

    /// The indices of the nodes, in ascending order.
    pub fn node_ids(&self) -> (r: Vec<u32>)
        ensures
            lists(r@, self.circuit().nodes.dom()),
    {
        graph_node_indices(&self.blocks)
    }

    /// The indices of the edges, in ascending order.
    pub fn edge_ids(&self) -> (r: Vec<u32>)
        ensures
            lists(r@, self.circuit().edges.dom()),
    {
        graph_edge_indices(&self.blocks)
    }

    /// Puts a block into the graph and returns its node, unless the
    /// block is not well formed or the graph is full.
    pub fn add_block(&mut self, block: Block) -> (r: Option<u32>)
        requires
            old(self).wf(),
        ensures
            final(self).wf(),
            r.is_some() == (block.wf() && old(self).circuit().nodes.dom().len() < GRAPH_LIMIT),
            r matches Some(id) ==> {
                &&& !old(self).circuit().nodes.contains_key(id)
                &&& final(self).circuit().nodes == old(self).circuit().nodes.insert(id, block)
            },
            r is None ==> final(self).circuit() == old(self).circuit(),
            final(self).circuit().edges == old(self).circuit().edges,
            final(self).probes == old(self).probes,
            final(self).triggers == old(self).triggers,
            final(self).constants == old(self).constants,
            final(self).updatable == old(self).updatable,
            final(self).tick_counter == old(self).tick_counter,
    {
        let ok = match &block {
            Block::Redstone(v) => v.signal <= 15,
            Block::Repeater(v) => 1 <= v.delay && v.delay <= 4 && v.count < v.delay,
            Block::Comparator(v) => v.signal <= 15 && v.next_signal <= 15 && match v.entity_power {
                Some(p) => p <= 15,
                None => true,
            },
            _ => true,
        };
        if !ok || graph_node_count(&self.blocks) >= GRAPH_LIMIT {
            return None;
        }
        let id = graph_add_node(&mut self.blocks, block);
        proof {
            let c = self.circuit();
            assert(c.nodes.dom() =~= old(self).circuit().nodes.dom().insert(id));
            assert forall|e: u32| #[trigger] c.edges.contains_key(e) implies c.nodes.contains_key(
                c.edges[e].source,
            ) && c.nodes.contains_key(c.edges[e].target) && c.edges[e].weight.wf() by {
                assert(old(self).circuit().edges.contains_key(e));
            }
            assert forall|e: u32| #[trigger]
                c.edges.contains_key(e) && c.edges[e].weight.side() implies (
            c.nodes[c.edges[e].target] is Repeater || c.nodes[c.edges[e].target] is Comparator) by {
                assert(old(self).circuit().edges.contains_key(e));
            }
            assert forall|n: u32| #[trigger] self.registered(n) implies c.nodes.contains_key(n)
                && c.nodes[n] is Redstone by {
                assert(old(self).registered(n));
            }
            assert forall|n: u32| #[trigger] self.is_constant(n)
                implies self.circuit().nodes[n] == crate::blocks::source_block() by {
                assert(old(self).is_constant(n));
                assert(old(self).registered(n));
                assert(old(self).circuit().nodes[n] == crate::blocks::source_block());
            }
        }
        Some(id)
    }

    /// Whether an edge of weight `weight` from `source` to `target` can
    /// join the circuit `c`: both are nodes of it, the loss is a signal
    /// strength, and a side edge ends at a block with a side face.
    pub open spec fn admits(c: Circuit, source: u32, target: u32, weight: Edge) -> bool {
        &&& c.nodes.contains_key(source)
        &&& c.nodes.contains_key(target)
        &&& weight.wf()
        &&& weight.side() ==> (c.nodes[target] is Repeater || c.nodes[target] is Comparator)
    }

    /// Joins `source` to `target` by an edge of the given weight and
    /// returns the edge, unless the circuit does not admit the edge or
    /// the graph is full.
    pub fn connect(&mut self, source: u32, target: u32, weight: Edge) -> (r: Option<u32>)
        requires
            old(self).wf(),
        ensures
            final(self).wf(),
            r.is_some() == (Self::admits(old(self).circuit(), source, target, weight)
                && old(self).circuit().edges.dom().len() < GRAPH_LIMIT),
            r matches Some(id) ==> {
                &&& !old(self).circuit().edges.contains_key(id)
                &&& final(self).circuit().edges == old(self).circuit().edges.insert(
                    id,
                    (Link { source, target, weight }),
                )
            },
            r is None ==> final(self).circuit() == old(self).circuit(),
            final(self).circuit().nodes == old(self).circuit().nodes,
            final(self).probes == old(self).probes,
            final(self).triggers == old(self).triggers,
            final(self).constants == old(self).constants,
            final(self).updatable == old(self).updatable,
            final(self).tick_counter == old(self).tick_counter,
    {
        if weight.strength_loss() > 15 {
            return None;
        }
        if graph_node_weight(&self.blocks, source).is_none() {
            return None;
        }
        match graph_node_weight(&self.blocks, target) {
            None => {
                return None;
            },
            Some(b) => {
                if weight.is_side() {
                    match b {
                        Block::Repeater(_) => {},
                        Block::Comparator(_) => {},
                        _ => {
                            return None;
                        },
                    }
                }
            },
        }
        if graph_edge_count(&self.blocks) >= GRAPH_LIMIT {
            return None;
        }
        let id = graph_add_edge(&mut self.blocks, source, target, weight);
        proof {
            let c = self.circuit();
            let c0 = old(self).circuit();
            assert(c.edges.dom() =~= c0.edges.dom().insert(id));
            assert(c.nodes.dom() =~= c0.nodes.dom());
            assert forall|n: u32| #[trigger] self.registered(n) implies c.nodes.contains_key(n)
                && c.nodes[n] is Redstone by {
                assert(old(self).registered(n));
            }
            assert forall|n: u32| #[trigger] self.is_constant(n)
                implies self.circuit().nodes[n] == crate::blocks::source_block() by {
                assert(old(self).is_constant(n));
                assert(old(self).registered(n));
                assert(old(self).circuit().nodes[n] == crate::blocks::source_block());
            }
            assert forall|e: u32| #[trigger] c.edges.contains_key(e) implies c.nodes.contains_key(
                c.edges[e].source,
            ) && c.nodes.contains_key(c.edges[e].target) && c.edges[e].weight.wf() by {
                if e != id {
                    assert(c0.edges.contains_key(e));
                }
            }
            assert forall|e: u32| #[trigger]
                c.edges.contains_key(e) && c.edges[e].weight.side() implies (
            c.nodes[c.edges[e].target] is Repeater || c.nodes[c.edges[e].target] is Comparator) by {
                if e != id {
                    assert(c0.edges.contains_key(e));
                }
            }
        }
        Some(id)
    }

    /// Whether `idx` is a wire node of the graph.
    pub fn is_wire_node(&self, idx: u32) -> (r: bool)
        ensures
            r == (self.circuit().nodes.contains_key(idx) && self.circuit().nodes[idx] is Redstone),
    {
        match graph_node_weight(&self.blocks, idx) {
            Some(Block::Redstone(_)) => true,
            _ => false,
        }
    }

    /// Registers the wire node `node` as a probe called `name`. A probe
    /// that held the node or the name before gives way. Returns whether
    /// `node` is a wire node; nothing changes when it is not.
    pub fn add_probe(&mut self, node: u32, name: &str) -> (r: bool)
        requires
            old(self).wf(),
        ensures
            final(self).wf(),
            r == (old(self).circuit().nodes.contains_key(node)
                && old(self).circuit().nodes[node] is Redstone),
            r ==> registers(old(self).probes, final(self).probes, node, name@),
            !r ==> final(self).probes == old(self).probes,
            final(self).circuit() == old(self).circuit(),
            final(self).triggers == old(self).triggers,
            final(self).constants == old(self).constants,
            final(self).updatable == old(self).updatable,
            final(self).tick_counter == old(self).tick_counter,
    {
        if !self.is_wire_node(node) {
            return false;
        }
        self.probes.insert(node, name.to_owned());
        proof {
            let c = self.circuit();
            assert forall|n: u32| #[trigger] self.registered(n) implies c.nodes.contains_key(n)
                && c.nodes[n] is Redstone by {
                if n != node {
                    assert(old(self).registered(n));
                }
            }
            assert forall|n: u32| #[trigger] self.is_constant(n)
                implies self.circuit().nodes[n] == crate::blocks::source_block() by {
                assert(old(self).is_constant(n));
                assert(old(self).registered(n));
                assert(old(self).circuit().nodes[n] == crate::blocks::source_block());
            }
        }
        true
    }

    /// Registers the wire node `node` as a trigger called `name`. A
    /// trigger that held the node or the name before gives way. Returns
    /// whether `node` is a wire node; nothing changes when it is not.
    pub fn add_trigger(&mut self, node: u32, name: &str) -> (r: bool)
        requires
            old(self).wf(),
        ensures
            final(self).wf(),
            r == (old(self).circuit().nodes.contains_key(node)
                && old(self).circuit().nodes[node] is Redstone),
            r ==> registers(old(self).triggers, final(self).triggers, node, name@),
            !r ==> final(self).triggers == old(self).triggers,
            final(self).circuit() == old(self).circuit(),
            final(self).probes == old(self).probes,
            final(self).constants == old(self).constants,
            final(self).updatable == old(self).updatable,
            final(self).tick_counter == old(self).tick_counter,
    {
        if !self.is_wire_node(node) {
            return false;
        }
        self.triggers.insert(node, name.to_owned());
        proof {
            let c = self.circuit();
            assert forall|n: u32| #[trigger] self.registered(n) implies c.nodes.contains_key(n)
                && c.nodes[n] is Redstone by {
                if n != node {
                    assert(old(self).registered(n));
                }
            }
            assert forall|n: u32| #[trigger] self.is_constant(n)
                implies self.circuit().nodes[n] == crate::blocks::source_block() by {
                assert(old(self).is_constant(n));
                assert(old(self).registered(n));
                assert(old(self).circuit().nodes[n] == crate::blocks::source_block());
            }
        }
        true
    }

    /// Registers the wire node `node` as a constant source, which
    /// holds the full signal from now on. Returns whether `node` is a
    /// wire node; nothing changes when it is not.
    pub fn add_constant(&mut self, node: u32) -> (r: bool)
        requires
            old(self).wf(),
        ensures
            final(self).wf(),
            r == (old(self).circuit().nodes.contains_key(node)
                && old(self).circuit().nodes[node] is Redstone),
            r ==> final(self).constants@ == old(self).constants@.push(node),
            r ==> final(self).circuit() == old(self).circuit().with_block(node, source_block()),
            !r ==> final(self).constants == old(self).constants,
            !r ==> final(self).circuit() == old(self).circuit(),
            final(self).probes == old(self).probes,
            final(self).triggers == old(self).triggers,
            final(self).updatable == old(self).updatable,
            final(self).tick_counter == old(self).tick_counter,
    {
        if !self.is_wire_node(node) {
            return false;
        }
        let ghost c0 = self.circuit();
        graph_set_node_weight(&mut self.blocks, node, redstone_source());
        self.constants.push(node);
        proof {
            let c = self.circuit();
            assert(c.nodes.dom() =~= c0.nodes.dom());
            assert forall|e: u32| #[trigger] c.edges.contains_key(e) implies c.nodes.contains_key(
                c.edges[e].source,
            ) && c.nodes.contains_key(c.edges[e].target) && c.edges[e].weight.wf() by {
                assert(c0.edges.contains_key(e));
            }
            assert forall|e: u32| #[trigger]
                c.edges.contains_key(e) && c.edges[e].weight.side() implies (
            c.nodes[c.edges[e].target] is Repeater || c.nodes[c.edges[e].target] is Comparator) by {
                assert(c0.edges.contains_key(e));
            }
            assert forall|n: u32| self.is_constant(n) implies n == node || old(self).is_constant(
                n,
            ) by {
                let i = choose|i: int| 0 <= i < self.constants@.len() && self.constants@[i] == n;
                if i < old(self).constants@.len() {
                    assert(old(self).constants@[i] == n);
                }
            }
            assert forall|n: u32| #[trigger] self.registered(n) implies c.nodes.contains_key(n)
                && c.nodes[n] is Redstone by {
                if n != node {
                    assert(old(self).registered(n));
                }
            }
            assert forall|n: u32| #[trigger] self.is_constant(n) implies c.nodes[n]
                == source_block() by {
                if n != node {
                    assert(old(self).is_constant(n));
                }
            }
        }
        true
    }

    /// Whether `node` is a constant source.
    pub fn holds_constant(&self, node: u32) -> (r: bool)
        ensures
            r == self.is_constant(node),
    {
        let mut i: usize = 0;
        while i < self.constants.len()
            invariant
                i <= self.constants@.len(),
                forall|j: int| 0 <= j < i ==> self.constants@[j] != node,
            decreases self.constants.len() - i,
        {
            if self.constants[i] == node {
                return true;
            }
            i = i + 1;
        }
        false
    }

    /// Puts `node` on the list of the nodes that the next tick looks at.
    pub fn schedule(&mut self, node: u32)
        ensures
            final(self).updatable@ == old(self).updatable@.push(node),
            final(self).blocks == old(self).blocks,
            final(self).probes == old(self).probes,
            final(self).triggers == old(self).triggers,
            final(self).constants == old(self).constants,
            final(self).tick_counter == old(self).tick_counter,
    {
        self.updatable.push(node);
    }

    /// Reads the probe called `name`.
    pub fn get_probe(&self, name: &str) -> (r: bool)
        requires
            self.wf(),
        ensures
            r == self.reads(name@),
    {
        match self.probes.find(name) {
            None => false,
            Some(node) => {
                let (rear, side) = input_power(&self.blocks, node);
                rear > 0 || side > 0
            },
        }
    }
}

} // verus!
