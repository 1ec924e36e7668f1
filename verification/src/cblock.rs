//! Construction blocks: the blocks of the voxel world, with the rules by
//! which they connect. They serve to build the graph and are of no use
//! after that.

use crate::blocks::comparator::{CComparator, ComparatorMode};
use crate::blocks::redstone::Redstone;
use crate::blocks::redstone_block::CRedstoneBlock;
use crate::blocks::repeater::Repeater;
use crate::blocks::torch::{Torch, NEVER};
use crate::blocks::Block;
use crate::edge::{Edge, InputSide, MAX_POWER};
use crate::facing::Facing;
use crate::graph::{
    graph_add_edge, graph_add_node, graph_edges, graph_nodes, BlockGraph, Link, GRAPH_LIMIT,
};
use crate::parse::{prop, props_ok, small_number, state_name, state_props, BuildError};
use crate::state::{bool_named, facing_named, link_named, mode_named, BlockState};
use vstd::prelude::*;

verus! {

/// Redstone wire.
#[derive(Copy, Clone, Debug, PartialEq, Eq, Structural)]
pub struct CRedstone {
    /// Signal strength, from 0 to 15.
    pub signal: u8,
    /// Whether the wire connects to the north, east, south and west.
    pub north: bool,
    pub east: bool,
    pub south: bool,
    pub west: bool,
    pub node: Option<u32>,
}

/// The face of a solid block that wire powers. It powers components,
/// not wire.
#[derive(Copy, Clone, Debug, PartialEq, Eq, Structural)]
pub struct CSolidWeak {
    pub node: Option<u32>,
}

/// The face of a solid block that components power. It powers wire too.
#[derive(Copy, Clone, Debug, PartialEq, Eq, Structural)]
pub struct CSolidStrong {
    pub node: Option<u32>,
}

/// A block that takes input pulses.
#[derive(Copy, Clone, Debug, PartialEq, Eq, Structural)]
pub struct CTrigger {
    pub node: Option<u32>,
}

/// A block that can be observed.
#[derive(Copy, Clone, Debug, PartialEq, Eq, Structural)]
pub struct CProbe {
    pub node: Option<u32>,
}

/// A repeater.
#[derive(Copy, Clone, Debug, PartialEq, Eq, Structural)]
pub struct CRepeater {
    /// The direction from the output of the repeater to its rear.
    pub facing: Facing,
    /// Delay in ticks, from 1 to 4.
    pub delay: u8,
    pub powered: bool,
    pub locked: bool,
    pub node: Option<u32>,
}

/// A torch.
#[derive(Copy, Clone, Debug, PartialEq, Eq, Structural)]
pub struct CTorch {
    /// The direction from the block that the torch is fixed to, to the
    /// torch: up for a torch that stands on a block.
    pub facing: Facing,
    pub lit: bool,
    pub node: Option<u32>,
}

/// Blocks used during the creation of the graph structure of the world.
#[derive(Copy, Clone, Debug, PartialEq, Eq, Structural)]
pub enum CBlock {
    Redstone(CRedstone),
    SolidWeak(CSolidWeak),
    SolidStrong(CSolidStrong),
    Trigger(CTrigger),
    Probe(CProbe),
    Repeater(CRepeater),
    RedstoneBlock(CRedstoneBlock),
    Torch(CTorch),
    Comparator(CComparator),
}

/// The names of the blocks that are solid, and of those that are
/// transparent.
pub struct Palette {
    pub solid: Vec<String>,
    pub transparent: Vec<String>,
}

/// What a construction block tells the builder of the graph.
pub trait BlockConnections: Sized {
    /// The node of the block in the graph, once it has one.
    spec fn node_id(&self) -> Option<u32>;

    /// Whether the block puts out a signal in direction `facing`.
    spec fn outputs(&self, facing: Facing) -> bool;

    /// The face through which the block takes in a signal that travels
    /// in direction `facing`, if it takes it in.
    spec fn accepts(&self, facing: Facing) -> Option<InputSide>;

    /// The block of the running circuit that this block becomes.
    spec fn block(&self) -> Block;

    /// This block with `id` for its node.
    spec fn placed(&self, id: u32) -> Self;

    /// The node that puts out a signal in direction `facing`, if there
    /// is one.
    fn can_output(&self, facing: Facing) -> (r: Option<u32>)
        ensures
            r == (if self.outputs(facing) {
                self.node_id()
            } else {
                None
            }),
    ;

    /// The face through which the block takes in a signal that travels
    /// in direction `facing`, if it takes it in.
    fn can_input(&self, facing: Facing) -> (r: Option<InputSide>)
        ensures
            r == self.accepts(facing),
    ;

    /// Gives the block a node in the graph.
    fn add_node(&mut self, blocks: &mut BlockGraph)
        requires
            graph_nodes(*old(blocks)).dom().finite(),
            graph_nodes(*old(blocks)).dom().len() < GRAPH_LIMIT,
        ensures
            final(self).node_id() is Some,
            *final(self) == old(self).placed(final(self).node_id()->0),
            !graph_nodes(*old(blocks)).contains_key(final(self).node_id()->0),
            graph_nodes(*final(blocks)) == graph_nodes(*old(blocks)).insert(
                final(self).node_id()->0,
                old(self).block(),
            ),
            graph_edges(*final(blocks)) == graph_edges(*old(blocks)),
    ;
}

impl CRedstone {
    /// Whether the wire connects in direction `facing`.
    pub open spec fn connected(&self, facing: Facing) -> bool {
        match facing {
            Facing::North => self.north,
            Facing::East => self.east,
            Facing::South => self.south,
            Facing::West => self.west,
            _ => false,
        }
    }
}

impl BlockConnections for CRedstone {
    open spec fn node_id(&self) -> Option<u32> {
        self.node
    }

    /// Wire powers what lies below it and what it connects to.
    open spec fn outputs(&self, facing: Facing) -> bool {
        facing == Facing::Down || self.connected(facing)
    }

    open spec fn accepts(&self, facing: Facing) -> Option<InputSide> {
        Some(InputSide::Rear)
    }

    open spec fn block(&self) -> Block {
        Block::Redstone(Redstone { signal: self.signal, held: false })
    }

    open spec fn placed(&self, id: u32) -> CRedstone {
        CRedstone { node: Some(id), ..*self }
    }

    fn can_output(&self, facing: Facing) -> (r: Option<u32>) {
        let out = match facing {
            Facing::North => self.north,
            Facing::East => self.east,
            Facing::South => self.south,
            Facing::West => self.west,
            Facing::Up => false,
            Facing::Down => true,
        };
        if out {
            self.node
        } else {
            None
        }
    }

    fn can_input(&self, facing: Facing) -> (r: Option<InputSide>) {
        Some(InputSide::Rear)
    }

    fn add_node(&mut self, blocks: &mut BlockGraph) {
        let id = graph_add_node(blocks, Block::Redstone(Redstone { signal: self.signal,
            held: false }));
        self.node = Some(id);
    }
}

impl BlockConnections for CSolidWeak {
    open spec fn node_id(&self) -> Option<u32> {
        self.node
    }

    open spec fn outputs(&self, facing: Facing) -> bool {
        true
    }

    open spec fn accepts(&self, facing: Facing) -> Option<InputSide> {
        Some(InputSide::Rear)
    }

    open spec fn block(&self) -> Block {
        Block::Redstone(Redstone { signal: 0, held: false })
    }

    open spec fn placed(&self, id: u32) -> CSolidWeak {
        CSolidWeak { node: Some(id) }
    }

    fn can_output(&self, facing: Facing) -> (r: Option<u32>) {
        self.node
    }

    fn can_input(&self, facing: Facing) -> (r: Option<InputSide>) {
        Some(InputSide::Rear)
    }

    fn add_node(&mut self, blocks: &mut BlockGraph) {
        let id = graph_add_node(blocks, crate::blocks::redstone_min());
        self.node = Some(id);
    }
}

impl BlockConnections for CSolidStrong {
    open spec fn node_id(&self) -> Option<u32> {
        self.node
    }

    open spec fn outputs(&self, facing: Facing) -> bool {
        true
    }

    open spec fn accepts(&self, facing: Facing) -> Option<InputSide> {
        Some(InputSide::Rear)
    }

    open spec fn block(&self) -> Block {
        Block::Redstone(Redstone { signal: 0, held: false })
    }

    open spec fn placed(&self, id: u32) -> CSolidStrong {
        CSolidStrong { node: Some(id) }
    }

    fn can_output(&self, facing: Facing) -> (r: Option<u32>) {
        self.node
    }

    fn can_input(&self, facing: Facing) -> (r: Option<InputSide>) {
        Some(InputSide::Rear)
    }

    fn add_node(&mut self, blocks: &mut BlockGraph) {
        let id = graph_add_node(blocks, crate::blocks::redstone_min());
        self.node = Some(id);
    }
}

impl BlockConnections for CTrigger {
    open spec fn node_id(&self) -> Option<u32> {
        self.node
    }

    open spec fn outputs(&self, facing: Facing) -> bool {
        true
    }

    open spec fn accepts(&self, facing: Facing) -> Option<InputSide> {
        None
    }

    open spec fn block(&self) -> Block {
        Block::Redstone(Redstone { signal: 0, held: false })
    }

    open spec fn placed(&self, id: u32) -> CTrigger {
        CTrigger { node: Some(id) }
    }

    fn can_output(&self, facing: Facing) -> (r: Option<u32>) {
        self.node
    }

    fn can_input(&self, facing: Facing) -> (r: Option<InputSide>) {
        None
    }

    fn add_node(&mut self, blocks: &mut BlockGraph) {
        let id = graph_add_node(blocks, crate::blocks::redstone_min());
        self.node = Some(id);
    }
}

impl BlockConnections for CProbe {
    open spec fn node_id(&self) -> Option<u32> {
        self.node
    }

    open spec fn outputs(&self, facing: Facing) -> bool {
        false
    }

    open spec fn accepts(&self, facing: Facing) -> Option<InputSide> {
        Some(InputSide::Rear)
    }

    open spec fn block(&self) -> Block {
        Block::Redstone(Redstone { signal: 0, held: false })
    }

    open spec fn placed(&self, id: u32) -> CProbe {
        CProbe { node: Some(id) }
    }

    fn can_output(&self, facing: Facing) -> (r: Option<u32>) {
        None
    }

    fn can_input(&self, facing: Facing) -> (r: Option<InputSide>) {
        Some(InputSide::Rear)
    }

    fn add_node(&mut self, blocks: &mut BlockGraph) {
        let id = graph_add_node(blocks, crate::blocks::redstone_min());
        self.node = Some(id);
    }
}

impl BlockConnections for CRedstoneBlock {
    open spec fn node_id(&self) -> Option<u32> {
        self.node
    }

    open spec fn outputs(&self, facing: Facing) -> bool {
        true
    }

    open spec fn accepts(&self, facing: Facing) -> Option<InputSide> {
        None
    }

    open spec fn block(&self) -> Block {
        crate::blocks::source_block()
    }

    open spec fn placed(&self, id: u32) -> CRedstoneBlock {
        CRedstoneBlock { node: Some(id) }
    }

    fn can_output(&self, facing: Facing) -> (r: Option<u32>) {
        self.node
    }

    fn can_input(&self, facing: Facing) -> (r: Option<InputSide>) {
        None
    }

    fn add_node(&mut self, blocks: &mut BlockGraph) {
        let id = graph_add_node(blocks, crate::blocks::redstone_source());
        self.node = Some(id);
    }
}

/// The face through which a repeater or comparator whose rear lies in
/// direction `own` takes in a signal that travels in direction
/// `facing`: the rear for one that travels the way the block puts out,
/// a side for one that travels across, none for any other.
pub open spec fn face_hit(own: Facing, facing: Facing) -> Option<InputSide> {
    if !facing.is_horizontal() {
        None
    } else if own == facing.left() || own == facing.right() {
        Some(InputSide::Side)
    } else if own == facing.opposite() {
        Some(InputSide::Rear)
    } else {
        None
    }
}

/// The face through which a repeater or comparator whose rear lies in
/// direction `own` takes in a signal that travels in direction `facing`.
pub fn hit_face(own: Facing, facing: Facing) -> (r: Option<InputSide>)
    ensures
        r == face_hit(own, facing),
{
    if !facing.is_flat() {
        None
    } else if own == facing.rotate_left() || own == facing.rotate_right() {
        Some(InputSide::Side)
    } else if own == facing.reverse() {
        Some(InputSide::Rear)
    } else {
        None
    }
}

impl BlockConnections for CRepeater {
    open spec fn node_id(&self) -> Option<u32> {
        self.node
    }

    open spec fn outputs(&self, facing: Facing) -> bool {
        self.facing == facing.opposite()
    }

    open spec fn accepts(&self, facing: Facing) -> Option<InputSide> {
        face_hit(self.facing, facing)
    }

    open spec fn block(&self) -> Block {
        Block::Repeater(
            Repeater {
                powered: self.powered,
                next_powered: self.powered,
                delay: self.delay,
                count: 0,
                locked: self.locked,
            },
        )
    }

    open spec fn placed(&self, id: u32) -> CRepeater {
        CRepeater { node: Some(id), ..*self }
    }

    fn can_output(&self, facing: Facing) -> (r: Option<u32>) {
        if self.facing == facing.reverse() {
            self.node
        } else {
            None
        }
    }

    fn can_input(&self, facing: Facing) -> (r: Option<InputSide>) {
        hit_face(self.facing, facing)
    }

    fn add_node(&mut self, blocks: &mut BlockGraph) {
        let block = Block::Repeater(
            Repeater {
                powered: self.powered,
                next_powered: self.powered,
                delay: self.delay,
                count: 0,
                locked: self.locked,
            },
        );
        let id = graph_add_node(blocks, block);
        self.node = Some(id);
    }
}

impl BlockConnections for CTorch {
    open spec fn node_id(&self) -> Option<u32> {
        self.node
    }

    /// A torch powers every side but that of the block it is fixed to.
    open spec fn outputs(&self, facing: Facing) -> bool {
        facing != self.facing.opposite()
    }

    /// A torch takes in what comes from the block it is fixed to.
    open spec fn accepts(&self, facing: Facing) -> Option<InputSide> {
        if facing == self.facing {
            Some(InputSide::Rear)
        } else {
            None
        }
    }

    open spec fn block(&self) -> Block {
        Block::Torch(Torch { lit: self.lit, next_lit: self.lit, last_update: NEVER })
    }

    open spec fn placed(&self, id: u32) -> CTorch {
        CTorch { node: Some(id), ..*self }
    }

    fn can_output(&self, facing: Facing) -> (r: Option<u32>) {
        if facing != self.facing.reverse() {
            self.node
        } else {
            None
        }
    }

    fn can_input(&self, facing: Facing) -> (r: Option<InputSide>) {
        if facing == self.facing {
            Some(InputSide::Rear)
        } else {
            None
        }
    }

    fn add_node(&mut self, blocks: &mut BlockGraph) {
        let id = graph_add_node(blocks, Block::Torch(Torch::with_lit(self.lit)));
        self.node = Some(id);
    }
}

impl BlockConnections for CComparator {
    open spec fn node_id(&self) -> Option<u32> {
        self.node
    }

    open spec fn outputs(&self, facing: Facing) -> bool {
        self.facing == facing.opposite()
    }

    open spec fn accepts(&self, facing: Facing) -> Option<InputSide> {
        face_hit(self.facing, facing)
    }

    open spec fn block(&self) -> Block {
        self.lowered()
    }

    open spec fn placed(&self, id: u32) -> CComparator {
        CComparator { node: Some(id), ..*self }
    }

    fn can_output(&self, facing: Facing) -> (r: Option<u32>) {
        if self.facing == facing.reverse() {
            self.node
        } else {
            None
        }
    }

    fn can_input(&self, facing: Facing) -> (r: Option<InputSide>) {
        hit_face(self.facing, facing)
    }

    fn add_node(&mut self, blocks: &mut BlockGraph) {
        let id = graph_add_node(blocks, self.to_block());
        self.node = Some(id);
    }
}

impl BlockConnections for CBlock {
    open spec fn node_id(&self) -> Option<u32> {
        match self {
            CBlock::Redstone(v) => v.node_id(),
            CBlock::SolidWeak(v) => v.node_id(),
            CBlock::SolidStrong(v) => v.node_id(),
            CBlock::Trigger(v) => v.node_id(),
            CBlock::Probe(v) => v.node_id(),
            CBlock::Repeater(v) => v.node_id(),
            CBlock::RedstoneBlock(v) => v.node_id(),
            CBlock::Torch(v) => v.node_id(),
            CBlock::Comparator(v) => v.node_id(),
        }
    }

    open spec fn outputs(&self, facing: Facing) -> bool {
        match self {
            CBlock::Redstone(v) => v.outputs(facing),
            CBlock::SolidWeak(v) => v.outputs(facing),
            CBlock::SolidStrong(v) => v.outputs(facing),
            CBlock::Trigger(v) => v.outputs(facing),
            CBlock::Probe(v) => v.outputs(facing),
            CBlock::Repeater(v) => v.outputs(facing),
            CBlock::RedstoneBlock(v) => v.outputs(facing),
            CBlock::Torch(v) => v.outputs(facing),
            CBlock::Comparator(v) => v.outputs(facing),
        }
    }

    open spec fn accepts(&self, facing: Facing) -> Option<InputSide> {
        match self {
            CBlock::Redstone(v) => v.accepts(facing),
            CBlock::SolidWeak(v) => v.accepts(facing),
            CBlock::SolidStrong(v) => v.accepts(facing),
            CBlock::Trigger(v) => v.accepts(facing),
            CBlock::Probe(v) => v.accepts(facing),
            CBlock::Repeater(v) => v.accepts(facing),
            CBlock::RedstoneBlock(v) => v.accepts(facing),
            CBlock::Torch(v) => v.accepts(facing),
            CBlock::Comparator(v) => v.accepts(facing),
        }
    }

    open spec fn block(&self) -> Block {
        match self {
            CBlock::Redstone(v) => v.block(),
            CBlock::SolidWeak(v) => v.block(),
            CBlock::SolidStrong(v) => v.block(),
            CBlock::Trigger(v) => v.block(),
            CBlock::Probe(v) => v.block(),
            CBlock::Repeater(v) => v.block(),
            CBlock::RedstoneBlock(v) => v.block(),
            CBlock::Torch(v) => v.block(),
            CBlock::Comparator(v) => v.block(),
        }
    }

    open spec fn placed(&self, id: u32) -> CBlock {
        match self {
            CBlock::Redstone(v) => CBlock::Redstone(v.placed(id)),
            CBlock::SolidWeak(v) => CBlock::SolidWeak(v.placed(id)),
            CBlock::SolidStrong(v) => CBlock::SolidStrong(v.placed(id)),
            CBlock::Trigger(v) => CBlock::Trigger(v.placed(id)),
            CBlock::Probe(v) => CBlock::Probe(v.placed(id)),
            CBlock::Repeater(v) => CBlock::Repeater(v.placed(id)),
            CBlock::RedstoneBlock(v) => CBlock::RedstoneBlock(v.placed(id)),
            CBlock::Torch(v) => CBlock::Torch(v.placed(id)),
            CBlock::Comparator(v) => CBlock::Comparator(v.placed(id)),
        }
    }

    fn can_output(&self, facing: Facing) -> (r: Option<u32>) {
        match self {
            CBlock::Redstone(v) => v.can_output(facing),
            CBlock::SolidWeak(v) => v.can_output(facing),
            CBlock::SolidStrong(v) => v.can_output(facing),
            CBlock::Trigger(v) => v.can_output(facing),
            CBlock::Probe(v) => v.can_output(facing),
            CBlock::Repeater(v) => v.can_output(facing),
            CBlock::RedstoneBlock(v) => v.can_output(facing),
            CBlock::Torch(v) => v.can_output(facing),
            CBlock::Comparator(v) => v.can_output(facing),
        }
    }

    fn can_input(&self, facing: Facing) -> (r: Option<InputSide>) {
        match self {
            CBlock::Redstone(v) => v.can_input(facing),
            CBlock::SolidWeak(v) => v.can_input(facing),
            CBlock::SolidStrong(v) => v.can_input(facing),
            CBlock::Trigger(v) => v.can_input(facing),
            CBlock::Probe(v) => v.can_input(facing),
            CBlock::Repeater(v) => v.can_input(facing),
            CBlock::RedstoneBlock(v) => v.can_input(facing),
            CBlock::Torch(v) => v.can_input(facing),
            CBlock::Comparator(v) => v.can_input(facing),
        }
    }

    fn add_node(&mut self, blocks: &mut BlockGraph) {
        match self {
            CBlock::Redstone(v) => v.add_node(blocks),
            CBlock::SolidWeak(v) => v.add_node(blocks),
            CBlock::SolidStrong(v) => v.add_node(blocks),
            CBlock::Trigger(v) => v.add_node(blocks),
            CBlock::Probe(v) => v.add_node(blocks),
            CBlock::Repeater(v) => v.add_node(blocks),
            CBlock::RedstoneBlock(v) => v.add_node(blocks),
            CBlock::Torch(v) => v.add_node(blocks),
            CBlock::Comparator(v) => v.add_node(blocks),
        }
    }
}

/// Whether a block of the kind of `source` can feed one of the kind of
/// `target` along direction `facing`.
///
/// Wire takes from everything but the weak face of a solid block. The
/// weak face takes from wire alone; the strong face and a probe take
/// from repeaters and comparators, and from a torch below them, and a
/// probe from wire too. A torch takes from triggers, solid blocks and
/// redstone blocks. A repeater takes from repeaters and comparators
/// through any face and from all else through its rear; a comparator
/// takes from wire, repeaters, redstone blocks and comparators through
/// any face and from all else through its rear. Nothing feeds a trigger
/// or a redstone block.
pub open spec fn connects(source: CBlock, target: CBlock, facing: Facing) -> bool {
    match target {
        CBlock::Redstone(_) => !(source is SolidWeak) && !(source is Probe),
        CBlock::SolidWeak(_) => source is Redstone,
        CBlock::SolidStrong(_) => source is Repeater || source is Comparator || (source is Torch
            && facing == Facing::Up),
        CBlock::Probe(_) => source is Redstone || source is Repeater || source is Comparator || (
        source is Torch && facing == Facing::Up),
        CBlock::Torch(_) => source is Trigger || source is SolidWeak || source is SolidStrong
            || source is RedstoneBlock,
        CBlock::Repeater(v) => source is Repeater || source is Comparator || (!(source is Probe)
            && facing == v.facing.opposite()),
        CBlock::Comparator(v) => source is Redstone || source is Repeater
            || source is RedstoneBlock || source is Comparator || (!(source is Probe) && facing
            == v.facing.opposite()),
        CBlock::Trigger(_) => false,
        CBlock::RedstoneBlock(_) => false,
    }
}

/// The weight of the edge from `source` to `target` that enters through
/// the face `side`: a side edge without loss for the side face, a rear
/// edge that loses 1 from wire to wire, and a rear edge without loss
/// for all else.
pub open spec fn weight_between(source: CBlock, target: CBlock, side: InputSide) -> Edge {
    if side == InputSide::Side {
        Edge::Side(0)
    } else if source is Redstone && target is Redstone {
        Edge::Rear(1)
    } else {
        Edge::Rear(0)
    }
}

pub fn can_connect(source: &CBlock, target: &CBlock, facing: Facing) -> (r: bool)
    ensures
        r == connects(*source, *target, facing),
{
    match (source, target) {
        (CBlock::Redstone(_), CBlock::Redstone(_)) => true,
        (CBlock::Redstone(_), CBlock::SolidWeak(_)) => true,
        (CBlock::Redstone(_), CBlock::Probe(_)) => true,
        (CBlock::Redstone(_), CBlock::Repeater(v)) => facing == v.facing.reverse(),
        (CBlock::Redstone(_), CBlock::Comparator(_)) => true,
        (CBlock::Trigger(_), CBlock::Redstone(_)) => true,
        (CBlock::Trigger(_), CBlock::Repeater(v)) => facing == v.facing.reverse(),
        (CBlock::Trigger(_), CBlock::Torch(_)) => true,
        (CBlock::Trigger(_), CBlock::Comparator(v)) => facing == v.facing.reverse(),
        (CBlock::SolidStrong(_), CBlock::Redstone(_)) => true,
        (CBlock::SolidWeak(_), CBlock::Repeater(v)) => facing == v.facing.reverse(),
        (CBlock::SolidStrong(_), CBlock::Repeater(v)) => facing == v.facing.reverse(),
        (CBlock::SolidWeak(_), CBlock::Torch(_)) => true,
        (CBlock::SolidStrong(_), CBlock::Torch(_)) => true,
        (CBlock::SolidWeak(_), CBlock::Comparator(v)) => facing == v.facing.reverse(),
        (CBlock::SolidStrong(_), CBlock::Comparator(v)) => facing == v.facing.reverse(),
        (CBlock::Repeater(_), CBlock::Redstone(_)) => true,
        (CBlock::Repeater(_), CBlock::SolidStrong(_)) => true,
        (CBlock::Repeater(_), CBlock::Probe(_)) => true,
        (CBlock::Repeater(_), CBlock::Repeater(_)) => true,
        (CBlock::Repeater(_), CBlock::Comparator(_)) => true,
        (CBlock::RedstoneBlock(_), CBlock::Redstone(_)) => true,
        (CBlock::RedstoneBlock(_), CBlock::Repeater(v)) => facing == v.facing.reverse(),
        (CBlock::RedstoneBlock(_), CBlock::Torch(_)) => true,
        (CBlock::RedstoneBlock(_), CBlock::Comparator(_)) => true,
        (CBlock::Torch(_), CBlock::Redstone(_)) => true,
        (CBlock::Torch(_), CBlock::SolidStrong(_)) => facing == Facing::Up,
        (CBlock::Torch(_), CBlock::Probe(_)) => facing == Facing::Up,
        (CBlock::Torch(_), CBlock::Repeater(v)) => facing == v.facing.reverse(),
        (CBlock::Torch(_), CBlock::Comparator(v)) => facing == v.facing.reverse(),
        (CBlock::Comparator(_), CBlock::Redstone(_)) => true,
        (CBlock::Comparator(_), CBlock::SolidStrong(_)) => true,
        (CBlock::Comparator(_), CBlock::Probe(_)) => true,
        (CBlock::Comparator(_), CBlock::Repeater(_)) => true,
        (CBlock::Comparator(_), CBlock::Comparator(_)) => true,
        _ => false,
    }
}

impl CBlock {
    /// The fields hold what a block of the kind can have.
    pub open spec fn wf(&self) -> bool {
        match self {
            CBlock::Redstone(v) => v.signal <= MAX_POWER,
            CBlock::Repeater(v) => 1 <= v.delay <= 4 && v.facing.is_horizontal(),
            CBlock::Torch(v) => v.facing != Facing::Down,
            CBlock::Comparator(v) => v.wf(),
            _ => true,
        }
    }

    /// The edge that leads from this block to `target`, its neighbour
    /// in direction `facing`, if one does: this block puts out that way
    /// and has a node, `target` takes in from there and has a node, and
    /// the kinds of the two connect.
    pub open spec fn link(&self, target: CBlock, facing: Facing) -> Option<Link> {
        if self.outputs(facing) && self.node_id() is Some && target.accepts(facing) is Some
            && target.node_id() is Some && connects(*self, target, facing) {
            Some(
                Link {
                    source: self.node_id()->0,
                    target: target.node_id()->0,
                    weight: weight_between(*self, target, target.accepts(facing)->0),
                },
            )
        } else {
            None
        }
    }

    /// Whether light passes through the block.
    pub open spec fn transparent(&self) -> bool {
        self is Redstone || self is Repeater || self is Comparator || self is Torch
    }

    pub fn is_transparent(&self) -> (r: bool)
        ensures
            r == self.transparent(),
    {
        match self {
            CBlock::SolidWeak(_) => false,
            CBlock::SolidStrong(_) => false,
            CBlock::Redstone(_) => true,
            CBlock::RedstoneBlock(_) => false,
            CBlock::Trigger(_) => false,
            CBlock::Repeater(_) => true,
            CBlock::Comparator(_) => true,
            CBlock::Torch(_) => true,
            CBlock::Probe(_) => false,
        }
    }

    /// The edge that leads from this block to `target`, its neighbour
    /// in direction `facing`, if one does.
    pub fn link_to(&self, target: &CBlock, facing: Facing) -> (r: Option<Link>)
        ensures
            r == self.link(*target, facing),
            r matches Some(l) ==> l.weight.wf() && (l.weight.side() ==> (target is Repeater
                || target is Comparator)),
    {
        let source = match self.can_output(facing) {
            Some(idx) => idx,
            None => {
                return None;
            },
        };
        let side = match target.can_input(facing) {
            Some(side) => side,
            None => {
                return None;
            },
        };
        let to = match target.can_output_node() {
            Some(idx) => idx,
            None => {
                return None;
            },
        };
        if !can_connect(self, target, facing) {
            return None;
        }
        let wire = match (self, target) {
            (CBlock::Redstone(_), CBlock::Redstone(_)) => true,
            _ => false,
        };
        let weight = match side {
            InputSide::Side => Edge::Side(0),
            InputSide::Rear => if wire {
                Edge::Rear(1)
            } else {
                Edge::Rear(0)
            },
        };
        Some(Link { source, target: to, weight })
    }

    /// The node of the block, once it has one.
    pub fn can_output_node(&self) -> (r: Option<u32>)
        ensures
            r == self.node_id(),
    {
        match self {
            CBlock::Redstone(v) => v.node,
            CBlock::SolidWeak(v) => v.node,
            CBlock::SolidStrong(v) => v.node,
            CBlock::Trigger(v) => v.node,
            CBlock::Probe(v) => v.node,
            CBlock::Repeater(v) => v.node,
            CBlock::RedstoneBlock(v) => v.node,
            CBlock::Torch(v) => v.node,
            CBlock::Comparator(v) => v.node,
        }
    }

    /// Joins the node of this block to that of `target`, its neighbour
    /// in direction `facing`, if an edge leads from the one to the
    /// other.
    pub fn add_edge(&self, target: &CBlock, facing: Facing, blocks: &mut BlockGraph)
        requires
            self.node_id() matches Some(a) ==> graph_nodes(*old(blocks)).contains_key(a),
            target.node_id() matches Some(b) ==> graph_nodes(*old(blocks)).contains_key(b),
            graph_edges(*old(blocks)).dom().finite(),
            graph_edges(*old(blocks)).dom().len() < GRAPH_LIMIT,
        ensures
            graph_nodes(*final(blocks)) == graph_nodes(*old(blocks)),
            self.link(*target, facing) is None ==> graph_edges(*final(blocks)) == graph_edges(
                *old(blocks),
            ),
            self.link(*target, facing) matches Some(l) ==> exists|id: u32|
                !graph_edges(*old(blocks)).contains_key(id) && graph_edges(*final(blocks))
                    == #[trigger] graph_edges(*old(blocks)).insert(id, l),
    {
        match self.link_to(target, facing) {
            None => {},
            Some(l) => {
                let id = graph_add_edge(blocks, l.source, l.target, l.weight);
                assert(graph_edges(*blocks) == graph_edges(*old(blocks)).insert(id, l));
            },
        }
    }
}

/// The value of the property `key` in the block state `t`, if the
/// block state gives one.
pub open spec fn value_in(t: Seq<char>, key: Seq<char>) -> Option<Seq<char>> {
    prop(state_props(t), key)
}

/// The wire that the block state `t` describes: it gives the strength
/// of the signal and says for each side whether the wire connects to
/// it.
pub open spec fn wire_of(t: Seq<char>) -> Option<CRedstone> {
    match (
        value_in(t, "power"@),
        value_in(t, "north"@),
        value_in(t, "east"@),
        value_in(t, "south"@),
        value_in(t, "west"@),
    ) {
        (Some(p), Some(n), Some(e), Some(s), Some(w)) => match (
            small_number(p, MAX_POWER),
            link_named(n),
            link_named(e),
            link_named(s),
            link_named(w),
        ) {
            (Some(signal), Some(north), Some(east), Some(south), Some(west)) => Some(
                CRedstone { signal, north, east, south, west, node: None },
            ),
            _ => None,
        },
        _ => None,
    }
}

/// The repeater that the block state `t` describes: it gives a
/// horizontal facing, a delay from 1 to 4, and says whether the
/// repeater is powered and whether it is locked.
pub open spec fn repeater_of(t: Seq<char>) -> Option<CRepeater> {
    match (value_in(t, "facing"@), value_in(t, "delay"@), value_in(t, "powered"@), value_in(t,
        "locked"@)) {
        (Some(f), Some(d), Some(p), Some(l)) => match (
            facing_named(f),
            small_number(d, 4),
            bool_named(p),
            bool_named(l),
        ) {
            (Some(facing), Some(delay), Some(powered), Some(locked)) => if delay >= 1 {
                Some(CRepeater { facing, delay, powered, locked, node: None })
            } else {
                None
            },
            _ => None,
        },
        _ => None,
    }
}

/// The torch that the block state `t` describes: it says whether the
/// torch is lit, and for a torch on a wall it gives a horizontal
/// facing.
pub open spec fn torch_of(t: Seq<char>, wall: bool) -> Option<CTorch> {
    match value_in(t, "lit"@) {
        Some(l) => match bool_named(l) {
            Some(lit) => if wall {
                match value_in(t, "facing"@) {
                    Some(f) => match facing_named(f) {
                        Some(facing) => Some(CTorch { facing, lit, node: None }),
                        None => None,
                    },
                    None => None,
                }
            } else {
                Some(CTorch { facing: Facing::Up, lit, node: None })
            },
            None => None,
        },
        None => None,
    }
}

/// The comparator that the block state `t` describes: it gives a
/// horizontal facing and a mode.
pub open spec fn comparator_of(t: Seq<char>) -> Option<CComparator> {
    match (value_in(t, "facing"@), value_in(t, "mode"@)) {
        (Some(f), Some(m)) => match (facing_named(f), mode_named(m)) {
            (Some(facing), Some(mode)) => Some(
                CComparator { signal: 0, facing, mode, entity_power: None, node: None },
            ),
            _ => None,
        },
        _ => None,
    }
}

/// One block, or the error for properties that do not describe it.
pub open spec fn one_block(b: Option<CBlock>) -> Result<Seq<CBlock>, BuildError> {
    match b {
        Some(c) => Ok(seq![c]),
        None => Err(BuildError::MalformedMetadata),
    }
}

/// Whether `list` holds the name `name`.
pub open spec fn names(list: Seq<String>, name: Seq<char>) -> bool {
    exists|i: int| 0 <= i < list.len() && list[i]@ == name
}

impl Palette {
    /// The construction blocks of a voxel that holds the block state
    /// `t`.
    ///
    /// A redstone component gives one block, described by the
    /// properties; a solid block gives two, its weak and its strong
    /// face; a transparent block gives none. Properties that cannot be
    /// read or that do not describe the component are an error, and so
    /// is a name that is neither that of a component nor listed.
    pub open spec fn blocks_of(&self, t: Seq<char>) -> Result<Seq<CBlock>, BuildError> {
        let name = state_name(t);
        if !props_ok(state_props(t)) {
            Err(BuildError::MalformedMetadata)
        } else if name == "minecraft:redstone_wire"@ {
            one_block(
                match wire_of(t) {
                    Some(v) => Some(CBlock::Redstone(v)),
                    None => None,
                },
            )
        } else if name == "minecraft:gold_block"@ || name == "minecraft:lightning_rod"@ {
            Ok(seq![CBlock::Trigger(CTrigger { node: None })])
        } else if name == "minecraft:diamond_block"@ {
            Ok(seq![CBlock::Probe(CProbe { node: None })])
        } else if name == "minecraft:redstone_block"@ {
            Ok(seq![CBlock::RedstoneBlock(CRedstoneBlock { node: None })])
        } else if name == "minecraft:redstone_torch"@ {
            one_block(
                match torch_of(t, false) {
                    Some(v) => Some(CBlock::Torch(v)),
                    None => None,
                },
            )
        } else if name == "minecraft:redstone_wall_torch"@ {
            one_block(
                match torch_of(t, true) {
                    Some(v) => Some(CBlock::Torch(v)),
                    None => None,
                },
            )
        } else if name == "minecraft:comparator"@ {
            one_block(
                match comparator_of(t) {
                    Some(v) => Some(CBlock::Comparator(v)),
                    None => None,
                },
            )
        } else if name == "minecraft:repeater"@ {
            one_block(
                match repeater_of(t) {
                    Some(v) => Some(CBlock::Repeater(v)),
                    None => None,
                },
            )
        } else if names(self.solid@, name) {
            Ok(
                seq![
                    CBlock::SolidWeak(CSolidWeak { node: None }),
                    CBlock::SolidStrong(CSolidStrong { node: None }),
                ],
            )
        } else if names(self.transparent@, name) {
            Ok(Seq::empty())
        } else {
            Err(BuildError::UnknownBlock)
        }
    }

    /// Whether `list` holds the name of the block of `b`.
    fn lists(list: &Vec<String>, b: &BlockState) -> (r: bool)
        requires
            b.wf(),
        ensures
            r == names(list@, b.name()),
    {
        let mut i: usize = 0;
        while i < list.len()
            invariant
                i <= list@.len(),
                b.wf(),
                forall|j: int| 0 <= j < i ==> list@[j]@ != b.name(),
            decreases list@.len() - i,
        {
            if b.name_is(list[i].as_str()) {
                return true;
            }
            i = i + 1;
        }
        false
    }
}

/// The wire that the block state describes.
fn read_wire(b: &BlockState) -> (r: Option<CRedstone>)
    requires
        b.wf(),
    ensures
        r == wire_of(b.text()),
{
    let signal = b.small("power", MAX_POWER);
    let north = b.link("north");
    let east = b.link("east");
    let south = b.link("south");
    let west = b.link("west");
    match (signal, north, east, south, west) {
        (Some(signal), Some(north), Some(east), Some(south), Some(west)) => Some(
            CRedstone { signal, north, east, south, west, node: None },
        ),
        _ => None,
    }
}

/// The repeater that the block state describes.
fn read_repeater(b: &BlockState) -> (r: Option<CRepeater>)
    requires
        b.wf(),
    ensures
        r == repeater_of(b.text()),
{
    let facing = b.facing("facing");
    let delay = b.small("delay", 4);
    let powered = b.flag("powered");
    let locked = b.flag("locked");
    match (facing, delay, powered, locked) {
        (Some(facing), Some(delay), Some(powered), Some(locked)) => if delay >= 1 {
            Some(CRepeater { facing, delay, powered, locked, node: None })
        } else {
            None
        },
        _ => None,
    }
}

/// The torch that the block state describes.
fn read_torch(b: &BlockState, wall: bool) -> (r: Option<CTorch>)
    requires
        b.wf(),
    ensures
        r == torch_of(b.text(), wall),
{
    let lit = match b.flag("lit") {
        Some(lit) => lit,
        None => {
            return None;
        },
    };
    if wall {
        match b.facing("facing") {
            Some(facing) => Some(CTorch { facing, lit, node: None }),
            None => None,
        }
    } else {
        Some(CTorch { facing: Facing::Up, lit, node: None })
    }
}

/// The comparator that the block state describes.
fn read_comparator(b: &BlockState) -> (r: Option<CComparator>)
    requires
        b.wf(),
    ensures
        r == comparator_of(b.text()),
{
    match (b.facing("facing"), b.mode("mode")) {
        (Some(facing), Some(mode)) => Some(CComparator::new(facing, mode)),
        _ => None,
    }
}

/// The vector that holds `c` alone, or the error for properties that do
/// not describe the block.
fn single(c: Option<CBlock>) -> (r: Result<Vec<CBlock>, BuildError>)
    ensures
        r is Ok == c is Some,
        r matches Ok(v) ==> Ok::<Seq<CBlock>, BuildError>(v@) == one_block(c),
        r matches Err(e) ==> Err::<Seq<CBlock>, BuildError>(e) == one_block(c),
{
    match c {
        Some(c) => {
            let mut v: Vec<CBlock> = Vec::new();
            v.push(c);
            assert(v@ =~= seq![c]);
            Ok(v)
        },
        None => Err(BuildError::MalformedMetadata),
    }
}

impl CBlock {
    /// The construction blocks of a voxel that holds the block state
    /// `id`: the name of a block and, in square brackets, its
    /// properties.
    pub fn from_id(id: &str, palette: &Palette) -> (r: Result<Vec<CBlock>, BuildError>)
        ensures
            match r {
                Ok(v) => palette.blocks_of(id@) == Ok::<Seq<CBlock>, BuildError>(v@),
                Err(e) => palette.blocks_of(id@) == Err::<Seq<CBlock>, BuildError>(e),
            },
            r matches Ok(v) ==> v@.len() <= 2 && forall|k: int|
                0 <= k < v@.len() ==> (#[trigger] v@[k]).wf() && v@[k].node_id() is None,
    {
        let b = match BlockState::parse(id) {
            Ok(b) => b,
            Err(e) => {
                return Err(e);
            },
        };
        let r = if b.name_is("minecraft:redstone_wire") {
            single(
                match read_wire(&b) {
                    Some(v) => Some(CBlock::Redstone(v)),
                    None => None,
                },
            )
        } else if b.name_is("minecraft:gold_block") || b.name_is("minecraft:lightning_rod") {
            single(Some(CBlock::Trigger(CTrigger { node: None })))
        } else if b.name_is("minecraft:diamond_block") {
            single(Some(CBlock::Probe(CProbe { node: None })))
        } else if b.name_is("minecraft:redstone_block") {
            single(Some(CBlock::RedstoneBlock(CRedstoneBlock { node: None })))
        } else if b.name_is("minecraft:redstone_torch") {
            single(
                match read_torch(&b, false) {
                    Some(v) => Some(CBlock::Torch(v)),
                    None => None,
                },
            )
        } else if b.name_is("minecraft:redstone_wall_torch") {
            single(
                match read_torch(&b, true) {
                    Some(v) => Some(CBlock::Torch(v)),
                    None => None,
                },
            )
        } else if b.name_is("minecraft:comparator") {
            single(
                match read_comparator(&b) {
                    Some(v) => Some(CBlock::Comparator(v)),
                    None => None,
                },
            )
        } else if b.name_is("minecraft:repeater") {
            single(
                match read_repeater(&b) {
                    Some(v) => Some(CBlock::Repeater(v)),
                    None => None,
                },
            )
        } else if Palette::lists(&palette.solid, &b) {
            let mut v: Vec<CBlock> = Vec::new();
            v.push(CBlock::SolidWeak(CSolidWeak { node: None }));
            v.push(CBlock::SolidStrong(CSolidStrong { node: None }));
            assert(v@ =~= seq![
                CBlock::SolidWeak(CSolidWeak { node: None }),
                CBlock::SolidStrong(CSolidStrong { node: None }),
            ]);
            Ok(v)
        } else if Palette::lists(&palette.transparent, &b) {
            let v: Vec<CBlock> = Vec::new();
            assert(v@ =~= Seq::<CBlock>::empty());
            Ok(v)
        } else {
            Err(BuildError::UnknownBlock)
        };
        r
    }
}

} // verus!
