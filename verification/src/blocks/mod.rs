//! The blocks of a running circuit, and what each does in a tick.

use crate::blocks::comparator::Comparator;
use crate::blocks::redstone::Redstone;
use crate::blocks::repeater::Repeater;
use crate::blocks::srepeater::SRepeater;
use crate::blocks::torch::Torch;
use crate::edge::MAX_POWER;
use crate::graph::{circuit, input_power, successors, BlockGraph};
use vstd::prelude::*;

pub mod comparator;
pub mod redstone;
pub mod redstone_block;
pub mod repeater;
pub mod srepeater;
pub mod torch;

verus! {

/// Blocks that end up in the graph structure of the world.
#[derive(Clone, Copy, Debug, PartialEq, Eq, Structural)]
pub enum Block {
    Redstone(Redstone),
    Repeater(Repeater),
    Torch(Torch),
    Comparator(Comparator),
    SRepeater(SRepeater),
}

/// What a block puts out. It is a function of the block's own state and
/// of nothing else.
pub trait OutputPower {
    /// The strength of the signal that the block puts out.
    spec fn power(&self) -> u8;

    fn output_power(&self) -> (p: u8)
        ensures
            p == self.power(),
    ;
}

/// The two halves of a tick, for a block that stands in a graph.
pub trait Updatable: Sized {
    /// Whether the state of the block is one that a circuit can be in.
    spec fn valid(&self) -> bool;

    /// The block after it has seen `rear` and `side` arrive.
    spec fn updated(&self, rear: u8, side: u8) -> Self;

    /// Whether the block is of a kind that takes its next state at the
    /// end of a tick. Wire is not: it takes its input at once.
    spec fn two_phase(&self) -> bool;

    /// Whether the block waits for the end of the tick to take its next
    /// state.
    spec fn awaits_commit(&self) -> bool;

    /// Whether seeing `rear` and `side` arrive changes what the block
    /// puts out at once, so that the nodes it feeds have to be looked at
    /// again within the tick.
    spec fn cascades(&self, rear: u8, side: u8) -> bool;

    /// The block after the end of tick `tick`.
    spec fn committed(&self, tick: usize) -> Self;

    /// Whether the end of tick `tick` changes what the block puts out,
    /// so that the nodes it feeds have to be looked at in the next tick.
    spec fn fires(&self, tick: usize) -> bool;

    /// Reads what arrives at node `idx` of `blocks` and computes the
    /// next state of the block. A block that changes at once puts the
    /// nodes it feeds onto `tick_updatable`.
    fn update(&mut self, idx: u32, tick_updatable: &mut Vec<u32>, blocks: &BlockGraph) -> (pending:
        bool)
        requires
            old(self).valid(),
            circuit(*blocks).wf(),
        ensures
            *final(self) == old(self).updated(
                circuit(*blocks).rear_input(idx),
                circuit(*blocks).side_input(idx),
            ),
            final(self).valid(),
            pending == final(self).awaits_commit(),
            final(tick_updatable)@ == old(tick_updatable)@ + (if old(self).cascades(
                circuit(*blocks).rear_input(idx),
                circuit(*blocks).side_input(idx),
            ) {
                circuit(*blocks).successors(idx)
            } else {
                Seq::empty()
            }),
    ;

    /// Takes the next state at the end of tick `tick_counter`. Wire has
    /// no end of tick.
    fn late_updatable(&mut self, tick_counter: usize) -> (fired: bool)
        requires
            old(self).valid(),
            old(self).two_phase(),
        ensures
            *final(self) == old(self).committed(tick_counter),
            final(self).valid(),
            fired == old(self).fires(tick_counter),
    ;
}

/// The larger of what arrives at the rear and at the sides.
pub open spec fn any_input(rear: u8, side: u8) -> u8 {
    if rear >= side {
        rear
    } else {
        side
    }
}

impl Block {
    pub open spec fn wf(&self) -> bool {
        match self {
            Block::Redstone(v) => v.wf(),
            Block::Repeater(v) => v.wf(),
            Block::Comparator(v) => v.wf(),
            _ => true,
        }
    }

    /// Whether this block, feeding the side of a repeater, locks it.
    pub fn will_lock(&self) -> (r: bool)
        requires
            self is Repeater || self is Comparator,
        ensures
            r == (self.power() > 0),
    {
        match self {
            Block::Repeater(v) => v.will_lock(),
            Block::Comparator(v) => v.output_power() > 0,
            _ => false,
        }
    }

    /// Whether the block is a wire.
    pub fn is_redstone(&self) -> (r: bool)
        ensures
            r == (self is Redstone),
    {
        match self {
            Block::Redstone(_) => true,
            _ => false,
        }
    }
}

impl OutputPower for Block {
    open spec fn power(&self) -> u8 {
        match self {
            Block::Redstone(v) => v.power(),
            Block::Repeater(v) => v.power(),
            Block::Torch(v) => v.power(),
            Block::Comparator(v) => v.power(),
            Block::SRepeater(v) => v.power(),
        }
    }

    fn output_power(&self) -> (p: u8) {
        match self {
            Block::Redstone(v) => v.output_power(),
            Block::Repeater(v) => v.output_power(),
            Block::Torch(v) => v.output_power(),
            Block::Comparator(v) => v.output_power(),
            Block::SRepeater(v) => v.output_power(),
        }
    }
}

impl Updatable for Block {
    open spec fn valid(&self) -> bool {
        self.wf()
    }

    open spec fn updated(&self, rear: u8, side: u8) -> Block {
        match self {
            Block::Redstone(v) => Block::Redstone(v.updated(any_input(rear, side))),
            Block::Repeater(v) => Block::Repeater(v.updated(rear, side)),
            Block::Torch(v) => Block::Torch(v.updated(any_input(rear, side))),
            Block::Comparator(v) => Block::Comparator(v.updated(rear, side)),
            Block::SRepeater(v) => Block::SRepeater(v.updated(rear)),
        }
    }

    open spec fn two_phase(&self) -> bool {
        !(self is Redstone)
    }

    open spec fn awaits_commit(&self) -> bool {
        match self {
            Block::Redstone(_) => false,
            Block::Repeater(v) => v.awaits_commit(),
            Block::Torch(v) => v.awaits_commit(),
            Block::Comparator(v) => v.awaits_commit(),
            Block::SRepeater(v) => v.awaits_commit(),
        }
    }

    open spec fn cascades(&self, rear: u8, side: u8) -> bool {
        match self {
            Block::Redstone(v) => v.cascades(any_input(rear, side)),
            _ => false,
        }
    }

    open spec fn committed(&self, tick: usize) -> Block {
        match self {
            Block::Redstone(v) => Block::Redstone(*v),
            Block::Repeater(v) => Block::Repeater(v.committed()),
            Block::Torch(v) => Block::Torch(v.committed(tick)),
            Block::Comparator(v) => Block::Comparator(v.committed(tick)),
            Block::SRepeater(v) => Block::SRepeater(v.committed()),
        }
    }

    open spec fn fires(&self, tick: usize) -> bool {
        match self {
            Block::Redstone(_) => false,
            Block::Repeater(v) => v.fires(),
            Block::Torch(v) => v.fires(tick),
            Block::Comparator(v) => v.fires(tick),
            Block::SRepeater(v) => v.fires(),
        }
    }

    fn update(&mut self, idx: u32, tick_updatable: &mut Vec<u32>, blocks: &BlockGraph) -> (pending:
        bool) {
        let (rear, side) = input_power(blocks, idx);
        let input = if rear >= side {
            rear
        } else {
            side
        };
        match self {
            Block::Repeater(v) => v.update(rear, side),
            Block::Torch(v) => v.update(input),
            Block::Comparator(v) => v.update(rear, side),
            Block::Redstone(v) => {
                if v.update(input) {
                    let mut next = successors(blocks, idx);
                    tick_updatable.append(&mut next);
                }
                false
            },
            Block::SRepeater(v) => v.update(rear),
        }
    }

    fn late_updatable(&mut self, tick_counter: usize) -> (fired: bool) {
        match self {
            Block::Repeater(v) => v.late_updatable(),
            Block::Torch(v) => v.late_updatable(tick_counter),
            Block::Comparator(v) => v.late_updatable(tick_counter),
            Block::Redstone(_) => false,
            Block::SRepeater(v) => v.late_updatable(),
        }
    }
}

pub fn redstone_min() -> (b: Block)
    ensures
        b == Block::Redstone(Redstone { signal: 0, held: false }),
{
    Block::Redstone(Redstone::with_signal(0))
}

pub fn redstone_max() -> (b: Block)
    ensures
        b == Block::Redstone(Redstone { signal: MAX_POWER, held: false }),
{
    Block::Redstone(Redstone::with_signal(15))
}

/// The block of a constant source: wire that holds the full signal.
pub open spec fn source_block() -> Block {
    Block::Redstone(Redstone { signal: MAX_POWER, held: true })
}

/// The block of a constant source.
pub fn redstone_source() -> (b: Block)
    ensures
        b == source_block(),
{
    Block::Redstone(Redstone::constant())
}

pub fn srepeater_powered() -> (b: Block)
    ensures
        b == Block::SRepeater(SRepeater { powered: true, next_powered: true }),
{
    Block::SRepeater(SRepeater::with_power(true))
}

pub fn srepeater_unpowered() -> (b: Block)
    ensures
        b == Block::SRepeater(SRepeater { powered: false, next_powered: false }),
{
    Block::SRepeater(SRepeater::with_power(false))
}

/// What a well-formed block puts out is a signal strength: at most 15.
pub proof fn lemma_output_power_range(b: Block)
    requires
        b.wf(),
    ensures
        0 <= b.power() <= MAX_POWER,
{
}

/// The counter of a well-formed repeater stays below its delay through
/// both halves of a tick, whatever arrives.
pub proof fn lemma_repeater_counter_bound(r: Repeater, rear: u8, side: u8)
    requires
        r.wf(),
    ensures
        0 <= r.count < r.delay <= 4,
        r.updated(rear, side).wf(),
        r.updated(rear, side).delay == r.delay,
        r.committed().wf(),
        r.committed().delay == r.delay,
        r.count + 1 <= r.delay,
{
}

/// Both halves of a tick keep a block well formed, as long as what
/// arrives is a signal strength.
pub proof fn lemma_tick_keeps_wf(b: Block, rear: u8, side: u8, tick: usize)
    requires
        b.wf(),
        rear <= MAX_POWER,
        side <= MAX_POWER,
    ensures
        b.updated(rear, side).wf(),
        b.committed(tick).wf(),
{
}

/// Both halves of a tick keep a block of its kind.
pub proof fn lemma_tick_keeps_kind(b: Block, rear: u8, side: u8, tick: usize)
    ensures
        same_kind(b, b.updated(rear, side)),
        same_kind(b, b.committed(tick)),
{
}

/// Whether two blocks are of one kind.
pub open spec fn same_kind(a: Block, b: Block) -> bool {
    match a {
        Block::Redstone(_) => b is Redstone,
        Block::Repeater(_) => b is Repeater,
        Block::Torch(_) => b is Torch,
        Block::Comparator(_) => b is Comparator,
        Block::SRepeater(_) => b is SRepeater,
    }
}

/// Within one tick the end-of-tick step of a torch, a comparator, a
/// simple repeater or a wire does nothing the second time: the block is
/// as after the first, and the second does not fire for a torch or a
/// comparator.
pub proof fn lemma_commit_idempotent(b: Block, tick: usize)
    requires
        !(b is Repeater),
    ensures
        b.committed(tick).committed(tick) == b.committed(tick),
        (b is Torch || b is Comparator) ==> !b.committed(tick).fires(tick),
        b is SRepeater ==> !b.committed(tick).fires(tick),
{
}

} // verus!
