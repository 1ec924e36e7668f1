//! The block graph: a directed multigraph with stable node and edge
//! indices, kept in a `petgraph` stable graph.
//!
//! The contracts of this crate speak of a graph through two maps: from
//! the indices of its nodes to their blocks, and from the indices of its
//! edges to their endpoints and weights.

use crate::blocks::{Block, OutputPower};
use crate::edge::{attenuated, Edge, MAX_POWER};
use crate::order::{ascending, lemma_increasing_no_duplicates, lists, sorted_ids};
use petgraph::stable_graph::{EdgeIndex, NodeIndex, StableGraph};
use petgraph::visit::EdgeRef;
use petgraph::Direction;
use vstd::prelude::*;

verus! {

/// `petgraph`'s stable graph, which this crate holds without looking
/// inside.
#[verifier::external_type_specification]
#[verifier::external_body]
#[verifier::reject_recursive_types(N)]
#[verifier::reject_recursive_types(E)]
#[verifier::reject_recursive_types(Ty)]
#[verifier::reject_recursive_types(Ix)]
pub struct ExStableGraph<N, E, Ty, Ix>(StableGraph<N, E, Ty, Ix>);

/// `petgraph`'s marker for graphs with directed edges.
#[verifier::external_type_specification]
#[verifier::external_body]
pub struct ExDirected(petgraph::Directed);

/// `petgraph`'s two directions of an edge seen from a node: `Outgoing`
/// and `Incoming`.
#[verifier::external_type_specification]
pub struct ExDirection(Direction);

/// The number of nodes, and of edges, that a graph can hold at most.
pub const GRAPH_LIMIT: usize = 0xffff_ffff;

/// The graph of the blocks of a circuit.
pub type BlockGraph = StableGraph<Block, Edge>;

/// An edge of the graph: where it starts, where it ends, what it weighs.
#[derive(Debug, Clone, Copy, PartialEq, Eq, Structural)]
pub struct Link {
    pub source: u32,
    pub target: u32,
    pub weight: Edge,
}

/// The nodes of a graph: the index of each, with its block.
pub uninterp spec fn graph_nodes(g: BlockGraph) -> Map<u32, Block>;

/// The edges of a graph: the index of each, with its endpoints and its
/// weight.
pub uninterp spec fn graph_edges(g: BlockGraph) -> Map<u32, Link>;

/// A graph as the contracts see it.
pub struct Circuit {
    pub nodes: Map<u32, Block>,
    pub edges: Map<u32, Link>,
}

/// The nodes and edges of a graph.
pub open spec fn circuit(g: BlockGraph) -> Circuit {
    Circuit { nodes: graph_nodes(g), edges: graph_edges(g) }
}

/// The edges that are left when node `a` leaves a graph: those that
/// neither start nor end at `a`.
pub open spec fn detached(edges: Map<u32, Link>, a: u32) -> Map<u32, Link> {
    edges.remove_keys(
        Set::new(|e: u32| edges.contains_key(e) && (edges[e].source == a || edges[e].target == a)),
    )
}

impl Circuit {
    /// A circuit is well formed when it has no more nodes and edges
    /// than a graph can hold, each edge joins two of its nodes and loses
    /// at most the largest signal strength, and each block is well
    /// formed.
    pub open spec fn wf(self) -> bool {
        &&& self.nodes.dom().finite()
        &&& self.edges.dom().finite()
        &&& self.nodes.dom().len() <= GRAPH_LIMIT
        &&& self.edges.dom().len() <= GRAPH_LIMIT
        &&& forall|e: u32| #[trigger]
            self.edges.contains_key(e) ==> {
                &&& self.nodes.contains_key(self.edges[e].source)
                &&& self.nodes.contains_key(self.edges[e].target)
                &&& self.edges[e].weight.wf()
            }
        &&& forall|n: u32| #[trigger] self.nodes.contains_key(n) ==> self.nodes[n].wf()
    }

    /// The edges that end at `n`.
    pub open spec fn incoming(self, n: u32) -> Set<u32> {
        Set::new(|e: u32| self.edges.contains_key(e) && self.edges[e].target == n)
    }

    /// The edges that start at `n`.
    pub open spec fn outgoing(self, n: u32) -> Set<u32> {
        Set::new(|e: u32| self.edges.contains_key(e) && self.edges[e].source == n)
    }

    /// What edge `e` brings to its target: the output of its source,
    /// less the loss along the edge.
    pub open spec fn delivered(self, e: u32) -> u8 {
        attenuated(self.nodes[self.edges[e].source].power(), self.edges[e].weight.loss())
    }

    /// Whether some edge brings at least `p` to the face `side` of `n`.
    pub open spec fn reaches(self, n: u32, side: bool, p: u8) -> bool {
        exists|e: u32|
            self.incoming(n).contains(e) && self.edges[e].weight.side() == side
                && self.delivered(e) >= p
    }

    /// The largest strength up to `p` that reaches the face `side` of
    /// `n`, or 0 when none does.
    pub open spec fn strongest(self, n: u32, side: bool, p: u8) -> u8
        decreases p,
    {
        if p == 0 {
            0
        } else if self.reaches(n, side, p) {
            p
        } else {
            self.strongest(n, side, (p - 1) as u8)
        }
    }

    /// The strongest signal that reaches the rear of `n`.
    pub open spec fn rear_input(self, n: u32) -> u8 {
        self.strongest(n, false, MAX_POWER)
    }

    /// The strongest signal that reaches the sides of `n`.
    pub open spec fn side_input(self, n: u32) -> u8 {
        self.strongest(n, true, MAX_POWER)
    }

    /// The targets of the edges that start at `n`, one for each edge, in
    /// the order of the edges' indices.
    pub open spec fn successors(self, n: u32) -> Seq<u32> {
        ascending(self.outgoing(n)).map_values(|e: u32| self.edges[e].target)
    }

    /// The circuit with the block of node `n` replaced.
    pub open spec fn with_block(self, n: u32, b: Block) -> Circuit {
        Circuit { nodes: self.nodes.insert(n, b), ..self }
    }
}

/// Calls `StableGraph::new`: the graph it makes has no node and no edge.
#[verifier::external_body]
pub(crate) fn graph_new() -> (g: BlockGraph)
    ensures
        graph_nodes(g) =~= Map::empty(),
        graph_edges(g) =~= Map::empty(),
{
    StableGraph::new()
}

/// Calls `StableGraph::node_count`: the number of nodes.
#[verifier::external_body]
pub(crate) fn graph_node_count(g: &BlockGraph) -> (n: usize)
    ensures
        n == graph_nodes(*g).dom().len(),
{
    g.node_count()
}

/// Calls `StableGraph::edge_count`: the number of edges.
#[verifier::external_body]
pub(crate) fn graph_edge_count(g: &BlockGraph) -> (n: usize)
    ensures
        n == graph_edges(*g).dom().len(),
{
    g.edge_count()
}

/// Calls `StableGraph::add_node`: the block becomes a node under an
/// index that no node had, and nothing else changes. The call panics in
/// a graph that holds as many nodes as its index type can number, which
/// the precondition leaves out.
#[verifier::external_body]
pub(crate) fn graph_add_node(g: &mut BlockGraph, block: Block) -> (id: u32)
    requires
        graph_nodes(*old(g)).dom().finite(),
        graph_nodes(*old(g)).dom().len() < u32::MAX,
    ensures
        !graph_nodes(*old(g)).contains_key(id),
        graph_nodes(*final(g)) == graph_nodes(*old(g)).insert(id, block),
        graph_edges(*final(g)) == graph_edges(*old(g)),
{
    g.add_node(block).index() as u32
}

/// Calls `StableGraph::add_edge`: the edge joins the graph under an
/// index that no edge had, and nothing else changes. The call panics
/// when an endpoint is no node of the graph, or in a graph that holds as
/// many edges as its index type can number; the precondition leaves both
/// out.
#[verifier::external_body]
pub(crate) fn graph_add_edge(g: &mut BlockGraph, source: u32, target: u32, weight: Edge) -> (id:
    u32)
    requires
        graph_nodes(*old(g)).contains_key(source),
        graph_nodes(*old(g)).contains_key(target),
        graph_edges(*old(g)).dom().finite(),
        graph_edges(*old(g)).dom().len() < u32::MAX,
    ensures
        !graph_edges(*old(g)).contains_key(id),
        graph_edges(*final(g))
            == graph_edges(*old(g)).insert(id, (Link { source, target, weight })),
        graph_nodes(*final(g)) == graph_nodes(*old(g)),
{
    g.add_edge(NodeIndex::new(source as usize), NodeIndex::new(target as usize), weight).index()
        as u32
}

/// Calls `StableGraph::remove_node`: the node leaves the graph, and with
/// it the edges that start or end at it; its block is returned. Where
/// the index is that of no node, nothing changes.
#[verifier::external_body]
pub(crate) fn graph_remove_node(g: &mut BlockGraph, a: u32) -> (r: Option<Block>)
    ensures
        graph_nodes(*final(g)) == graph_nodes(*old(g)).remove(a),
        graph_edges(*final(g)) == detached(graph_edges(*old(g)), a),
        r == if graph_nodes(*old(g)).contains_key(a) {
            Some(graph_nodes(*old(g))[a])
        } else {
            None
        },
{
    g.remove_node(NodeIndex::new(a as usize))
}

/// Calls `StableGraph::remove_edge`: the edge leaves the graph and its
/// weight is returned. Where the index is that of no edge, nothing
/// changes.
#[verifier::external_body]
pub(crate) fn graph_remove_edge(g: &mut BlockGraph, e: u32) -> (r: Option<Edge>)
    ensures
        graph_edges(*final(g)) == graph_edges(*old(g)).remove(e),
        graph_nodes(*final(g)) == graph_nodes(*old(g)),
        r == if graph_edges(*old(g)).contains_key(e) {
            Some(graph_edges(*old(g))[e].weight)
        } else {
            None
        },
{
    g.remove_edge(EdgeIndex::new(e as usize))
}

/// Calls `StableGraph::node_weight`: the block of the node, if the index
/// is that of a node.
#[verifier::external_body]
pub(crate) fn graph_node_weight(g: &BlockGraph, a: u32) -> (r: Option<Block>)
    ensures
        r == if graph_nodes(*g).contains_key(a) {
            Some(graph_nodes(*g)[a])
        } else {
            None
        },
{
    g.node_weight(NodeIndex::new(a as usize)).copied()
}

/// Assigns through `StableGraph::index_mut`: the node gets the block,
/// and nothing else changes. The call panics when the index is that of
/// no node, which the precondition leaves out.
#[verifier::external_body]
pub(crate) fn graph_set_node_weight(g: &mut BlockGraph, a: u32, block: Block)
    requires
        graph_nodes(*old(g)).contains_key(a),
    ensures
        graph_nodes(*final(g)) == graph_nodes(*old(g)).insert(a, block),
        graph_edges(*final(g)) == graph_edges(*old(g)),
{
    g[NodeIndex::new(a as usize)] = block;
}

/// Calls `StableGraph::edge_weight`: the weight of the edge, if the
/// index is that of an edge.
#[verifier::external_body]
pub(crate) fn graph_edge_weight(g: &BlockGraph, e: u32) -> (r: Option<Edge>)
    ensures
        r == if graph_edges(*g).contains_key(e) {
            Some(graph_edges(*g)[e].weight)
        } else {
            None
        },
{
    g.edge_weight(EdgeIndex::new(e as usize)).copied()
}

/// Calls `StableGraph::edge_endpoints`: the source and the target of the
/// edge, if the index is that of an edge.
#[verifier::external_body]
pub(crate) fn graph_edge_endpoints(g: &BlockGraph, e: u32) -> (r: Option<(u32, u32)>)
    ensures
        r == if graph_edges(*g).contains_key(e) {
            Some((graph_edges(*g)[e].source, graph_edges(*g)[e].target))
        } else {
            None
        },
{
    g.edge_endpoints(EdgeIndex::new(e as usize)).map(|(a, b)| (a.index() as u32, b.index() as u32))
}

/// Calls `StableGraph::node_indices`: the indices of the nodes, in
/// ascending order.
#[verifier::external_body]
pub(crate) fn graph_node_indices(g: &BlockGraph) -> (r: Vec<u32>)
    ensures
        lists(r@, graph_nodes(*g).dom()),
{
    g.node_indices().map(|i| i.index() as u32).collect()
}

/// Calls `StableGraph::edge_indices`: the indices of the edges, in
/// ascending order.
#[verifier::external_body]
pub(crate) fn graph_edge_indices(g: &BlockGraph) -> (r: Vec<u32>)
    ensures
        lists(r@, graph_edges(*g).dom()),
{
    g.edge_indices().map(|i| i.index() as u32).collect()
}

/// Calls `StableGraph::edges_directed`: the indices of the edges that
/// start at the node (`Outgoing`) or end at it (`Incoming`), each once.
/// The order in which they come is left open.
#[verifier::external_body]
pub(crate) fn graph_edges_directed(g: &BlockGraph, a: u32, dir: Direction) -> (r: Vec<u32>)
    ensures
        r@.no_duplicates(),
        forall|e: u32|
            r@.contains(e) <==> (graph_edges(*g).contains_key(e) && match dir {
                Direction::Outgoing => graph_edges(*g)[e].source == a,
                Direction::Incoming => graph_edges(*g)[e].target == a,
            }),
{
    g.edges_directed(NodeIndex::new(a as usize), dir).map(|e| e.id().index() as u32).collect()
}

/// The strongest strength up to `p` that reaches a face is an upper
/// bound of what the edges bring to it, and is brought by one of them
/// unless it is 0.
pub proof fn lemma_strongest(c: Circuit, n: u32, side: bool, p: u8)
    ensures
        c.strongest(n, side, p) <= p,
        c.strongest(n, side, p) > 0 ==> c.reaches(n, side, c.strongest(n, side, p)),
        forall|q: u8| c.strongest(n, side, p) < q <= p ==> !c.reaches(n, side, q),
    decreases p,
{
    if p > 0 && !c.reaches(n, side, p) {
        lemma_strongest(c, n, side, (p - 1) as u8);
    }
}

/// A strength `m` that bounds what the edges bring to a face, and that
/// one of them brings unless it is 0, is the input of that face.
pub proof fn lemma_input_is_maximum(c: Circuit, n: u32, side: bool, m: u8)
    requires
        m <= MAX_POWER,
        forall|e: u32|
            c.incoming(n).contains(e) && c.edges[e].weight.side() == side ==> c.delivered(e) <= m,
        m > 0 ==> exists|e: u32|
            c.incoming(n).contains(e) && c.edges[e].weight.side() == side && c.delivered(e) == m,
    ensures
        c.strongest(n, side, MAX_POWER) == m,
{
    lemma_strongest(c, n, side, MAX_POWER);
    let s = c.strongest(n, side, MAX_POWER);
    if s > m {
        assert(c.reaches(n, side, s));
    }
    if s < m {
        let e = choose|e: u32|
            c.incoming(n).contains(e) && c.edges[e].weight.side() == side && c.delivered(e) == m;
        assert(c.reaches(n, side, m));
    }
}

/// What the edges bring to the rear and to the sides of node `idx`.
pub fn input_power(g: &BlockGraph, idx: u32) -> (r: (u8, u8))
    requires
        circuit(*g).wf(),
    ensures
        r.0 == circuit(*g).rear_input(idx),
        r.1 == circuit(*g).side_input(idx),
        r.0 <= MAX_POWER,
        r.1 <= MAX_POWER,
{
    let ghost c = circuit(*g);
    let ids = graph_edges_directed(g, idx, Direction::Incoming);
    let mut rear: u8 = 0;
    let mut side: u8 = 0;
    let mut i: usize = 0;
    while i < ids.len()
        invariant
            i <= ids.len(),
            c == circuit(*g),
            c.wf(),
            forall|e: u32| ids@.contains(e) <==> c.incoming(idx).contains(e),
            rear <= MAX_POWER,
            side <= MAX_POWER,
            forall|j: int|
                0 <= j < i && !c.edges[ids@[j]].weight.side() ==> c.delivered(ids@[j]) <= rear,
            forall|j: int|
                0 <= j < i && c.edges[ids@[j]].weight.side() ==> c.delivered(ids@[j]) <= side,
            rear > 0 ==> exists|e: u32|
                c.incoming(idx).contains(e) && !c.edges[e].weight.side() && c.delivered(e) == rear,
            side > 0 ==> exists|e: u32|
                c.incoming(idx).contains(e) && c.edges[e].weight.side() && c.delivered(e) == side,
        decreases ids.len() - i,
    {
        let e = ids[i];
        assert(ids@.contains(e));
        assert(c.incoming(idx).contains(e));
        assert(c.edges.contains_key(e));
        let weight = graph_edge_weight(g, e).unwrap();
        let ends = graph_edge_endpoints(g, e).unwrap();
        let source = graph_node_weight(g, ends.0).unwrap();
        let power = weight.carry(source.output_power());
        assert(power == c.delivered(e));
        if weight.is_side() {
            if power > side {
                side = power;
            }
        } else {
            if power > rear {
                rear = power;
            }
        }
        i = i + 1;
    }
    proof {
        assert forall|e: u32|
            c.incoming(idx).contains(e) && c.edges[e].weight.side() == false implies c.delivered(e)
            <= rear by {
            assert(ids@.contains(e));
            let j = choose|j: int| 0 <= j < ids@.len() && ids@[j] == e;
            assert(c.delivered(ids@[j]) <= rear);
        }
        assert forall|e: u32|
            c.incoming(idx).contains(e) && c.edges[e].weight.side() == true implies c.delivered(e)
            <= side by {
            assert(ids@.contains(e));
            let j = choose|j: int| 0 <= j < ids@.len() && ids@[j] == e;
            assert(c.delivered(ids@[j]) <= side);
        }
        lemma_input_is_maximum(c, idx, false, rear);
        lemma_input_is_maximum(c, idx, true, side);
    }
    (rear, side)
}

/// The indices of the edges that start at `idx`, in ascending order.
pub fn outgoing_edges(g: &BlockGraph, idx: u32) -> (r: Vec<u32>)
    ensures
        r@ == ascending(circuit(*g).outgoing(idx)),
        lists(r@, circuit(*g).outgoing(idx)),
{
    let ids = graph_edges_directed(g, idx, Direction::Outgoing);
    let r = sorted_ids(&ids);
    proof {
        assert(ids@.to_set() =~= circuit(*g).outgoing(idx));
    }
    r
}

/// The indices of the edges that end at `idx`, in ascending order.
pub fn incoming_edges(g: &BlockGraph, idx: u32) -> (r: Vec<u32>)
    ensures
        r@ == ascending(circuit(*g).incoming(idx)),
        lists(r@, circuit(*g).incoming(idx)),
{
    let ids = graph_edges_directed(g, idx, Direction::Incoming);
    let r = sorted_ids(&ids);
    proof {
        assert(ids@.to_set() =~= circuit(*g).incoming(idx));
    }
    r
}

/// The nodes that `idx` feeds, one for each edge that starts at it, in
/// the order of the edges' indices.
pub fn successors(g: &BlockGraph, idx: u32) -> (r: Vec<u32>)
    ensures
        r@ == circuit(*g).successors(idx),
{
    let ghost c = circuit(*g);
    let ids = outgoing_edges(g, idx);
    let mut r: Vec<u32> = Vec::new();
    let mut i: usize = 0;
    while i < ids.len()
        invariant
            i <= ids.len(),
            c == circuit(*g),
            lists(ids@, c.outgoing(idx)),
            r@.len() == i,
            forall|j: int| 0 <= j < i ==> r@[j] == c.edges[ids@[j]].target,
        decreases ids.len() - i,
    {
        let e = ids[i];
        assert(ids@.contains(e));
        assert(c.outgoing(idx).contains(e));
        let ends = graph_edge_endpoints(g, e).unwrap();
        r.push(ends.1);
        i = i + 1;
    }
    assert(r@ =~= ids@.map_values(|e: u32| c.edges[e].target));
    r
}

} // verus!
