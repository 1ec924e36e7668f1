//! Comparator: compares its rear input with its side input, or subtracts
//! the side input from it.

use crate::blocks::torch::NEVER;
use crate::blocks::{Block, OutputPower};
use crate::edge::{attenuated, MAX_POWER};
use crate::facing::Facing;
use vstd::prelude::*;

verus! {

#[derive(Debug, Copy, Clone, PartialEq, Eq, Structural)]
pub enum ComparatorMode {
    Compare,
    Subtract,
}

/// A comparator of the running circuit.
#[derive(Debug, Copy, Clone, PartialEq, Eq, Structural)]
pub struct Comparator {
    /// Signal ranges from 0 to 15 inclusive.
    pub signal: u8,
    /// Signal of the comparator during the next tick.
    pub next_signal: u8,
    /// What the container behind the comparator feeds into its rear.
    pub entity_power: Option<u8>,
    /// Mode of the comparator, can be in `Compare` or `Subtract` mode.
    pub mode: ComparatorMode,
    /// The tick that last committed this comparator.
    pub last_update: usize,
}

/// A comparator as it is found in the voxel world.
#[derive(Debug, Copy, Clone, PartialEq, Eq, Structural)]
pub struct CComparator {
    /// Signal ranges from 0 to 15 inclusive.
    pub signal: u8,
    /// The direction from the output of the comparator to its rear.
    pub facing: Facing,
    /// Mode of the comparator, can be in `Compare` or `Subtract` mode.
    pub mode: ComparatorMode,
    /// What the container behind the comparator feeds into its rear.
    pub entity_power: Option<u8>,
    /// The node of the comparator in the graph, once it has one.
    pub node: Option<u32>,
}

/// The larger of two strengths.
pub open spec fn stronger(a: u8, b: u8) -> u8 {
    if a >= b {
        a
    } else {
        b
    }
}

impl ComparatorMode {
    /// What a comparator in this mode puts out for the given inputs.
    pub open spec fn output(self, rear: u8, side: u8) -> u8 {
        match self {
            ComparatorMode::Compare => if side <= rear {
                rear
            } else {
                0
            },
            ComparatorMode::Subtract => attenuated(rear, side),
        }
    }
}

impl Comparator {
    pub open spec fn wf(&self) -> bool {
        &&& self.signal <= MAX_POWER
        &&& self.next_signal <= MAX_POWER
        &&& self.entity_power matches Some(p) ==> p <= MAX_POWER
    }

    /// What reaches the rear of the comparator when its edges bring
    /// `rear`: the stronger of that and of what the container behind it
    /// gives.
    pub open spec fn rear_power(&self, rear: u8) -> u8 {
        match self.entity_power {
            Some(p) => stronger(rear, p),
            None => rear,
        }
    }

    /// The comparator after it has seen `rear` and `side` arrive.
    pub open spec fn updated(&self, rear: u8, side: u8) -> Comparator {
        Comparator { next_signal: self.mode.output(self.rear_power(rear), side), ..*self }
    }

    pub open spec fn awaits_commit(&self) -> bool {
        self.signal != self.next_signal
    }

    /// Whether the end of tick `tick` commits the comparator: it does
    /// unless that tick has done so before.
    pub open spec fn fires(&self, tick: usize) -> bool {
        self.last_update != tick
    }

    /// The comparator after the end of tick `tick`.
    pub open spec fn committed(&self, tick: usize) -> Comparator {
        if self.fires(tick) {
            Comparator { signal: self.next_signal, last_update: tick, ..*self }
        } else {
            *self
        }
    }

    pub fn update(&mut self, rear: u8, side: u8) -> (pending: bool)
        requires
            old(self).wf(),
            rear <= MAX_POWER,
        ensures
            *final(self) == old(self).updated(rear, side),
            pending == final(self).awaits_commit(),
            final(self).wf(),
    {
        let rear = match self.entity_power {
            Some(p) => if rear >= p {
                rear
            } else {
                p
            },
            None => rear,
        };
        self.next_signal = match self.mode {
            ComparatorMode::Compare => if side <= rear {
                rear
            } else {
                0
            },
            ComparatorMode::Subtract => rear.saturating_sub(side),
        };
        self.signal != self.next_signal
    }

    pub fn late_updatable(&mut self, tick_counter: usize) -> (fired: bool)
        requires
            old(self).wf(),
        ensures
            *final(self) == old(self).committed(tick_counter),
            fired == old(self).fires(tick_counter),
            final(self).wf(),
    {
        if tick_counter == self.last_update {
            return false;
        }
        self.last_update = tick_counter;
        self.signal = self.next_signal;
        true
    }
}

impl OutputPower for Comparator {
    open spec fn power(&self) -> u8 {
        self.signal
    }

    fn output_power(&self) -> (p: u8) {
        self.signal
    }
}

impl CComparator {
    pub open spec fn wf(&self) -> bool {
        &&& self.signal <= MAX_POWER
        &&& self.facing.is_horizontal()
        &&& self.entity_power matches Some(p) ==> p <= MAX_POWER
    }

    pub fn new(facing: Facing, mode: ComparatorMode) -> (r: CComparator)
        ensures
            r == (CComparator { signal: 0, facing, mode, entity_power: None, node: None }),
    {
        CComparator { signal: 0, facing, mode, entity_power: None, node: None }
    }

    pub fn contains_entity_power(&self) -> (r: bool)
        ensures
            r == self.entity_power.is_some(),
    {
        self.entity_power.is_some()
    }

    pub fn facing(&self) -> (r: Facing)
        ensures
            r == self.facing,
    {
        self.facing
    }

    /// The comparator of the running circuit that this one becomes.
    pub open spec fn lowered(&self) -> Block {
        Block::Comparator(
            Comparator {
                signal: self.signal,
                next_signal: self.signal,
                entity_power: self.entity_power,
                mode: self.mode,
                last_update: NEVER,
            },
        )
    }

    /// The comparator of the running circuit that this one becomes.
    pub fn to_block(&self) -> (b: Block)
        ensures
            b == self.lowered(),
    {
        Block::Comparator(
            Comparator {
                signal: self.signal,
                next_signal: self.signal,
                entity_power: self.entity_power,
                mode: self.mode,
                last_update: NEVER,
            },
        )
    }
}

} // verus!
