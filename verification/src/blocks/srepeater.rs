//! Simple repeater: a repeater of delay 1 that nothing can lock.

use crate::blocks::OutputPower;
use crate::edge::MAX_POWER;
use vstd::prelude::*;

verus! {

#[derive(Debug, Clone, Copy, PartialEq, Eq, Structural)]
pub struct SRepeater {
    /// Whether the repeater puts out a signal.
    pub powered: bool,
    /// What `powered` becomes at the end of the tick.
    pub next_powered: bool,
}

impl SRepeater {
    /// The repeater after it has seen `rear` at its back.
    pub open spec fn updated(&self, rear: u8) -> SRepeater {
        SRepeater { next_powered: rear > 0, ..*self }
    }

    pub open spec fn awaits_commit(&self) -> bool {
        self.powered != self.next_powered
    }

    /// Whether the end of the tick changes the output.
    pub open spec fn fires(&self) -> bool {
        self.powered != self.next_powered
    }

    /// The repeater after the end of a tick.
    pub open spec fn committed(&self) -> SRepeater {
        SRepeater { powered: self.next_powered, ..*self }
    }

    pub fn with_power(powered: bool) -> (r: SRepeater)
        ensures
            r == (SRepeater { powered, next_powered: powered }),
    {
        SRepeater { powered, next_powered: powered }
    }

    pub fn update(&mut self, rear: u8) -> (pending: bool)
        ensures
            *final(self) == old(self).updated(rear),
            pending == final(self).awaits_commit(),
    {
        self.next_powered = rear > 0;
        self.powered != self.next_powered
    }

    pub fn late_updatable(&mut self) -> (fired: bool)
        ensures
            *final(self) == old(self).committed(),
            fired == old(self).fires(),
    {
        let fired = self.powered != self.next_powered;
        self.powered = self.next_powered;
        fired
    }
}

impl OutputPower for SRepeater {
    open spec fn power(&self) -> u8 {
        if self.powered {
            MAX_POWER
        } else {
            0
        }
    }

    fn output_power(&self) -> (p: u8) {
        if self.powered {
            MAX_POWER
        } else {
            0
        }
    }
}

} // verus!
