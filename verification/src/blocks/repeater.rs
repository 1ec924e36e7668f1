//! Repeater: passes a signal on after a delay, unless it is locked.

use crate::blocks::OutputPower;
use crate::edge::MAX_POWER;
use vstd::prelude::*;

verus! {

#[derive(Debug, Clone, Copy, PartialEq, Eq, Structural)]
pub struct Repeater {
    /// Whether the repeater puts out a signal.
    pub powered: bool,
    /// What `powered` becomes once the delay has run out.
    pub next_powered: bool,
    /// Ticks between a change of the input and that of the output, from
    /// 1 to 4.
    pub delay: u8,
    /// Ticks that the pending change has waited so far.
    pub count: u8,
    /// Whether the side input holds the repeater in its state.
    pub locked: bool,
}

impl Repeater {
    /// The delay is one of 1, 2, 3, 4 and the counter has not reached it.
    pub open spec fn wf(&self) -> bool {
        1 <= self.delay <= 4 && self.count < self.delay
    }

    /// The repeater after it has seen `rear` at its back and `side` at
    /// its sides.
    ///
    /// A side signal locks it: nothing but the lock changes. Otherwise a
    /// rising input starts a new countdown towards "powered", and a
    /// falling input is taken up only when no countdown is under way.
    pub open spec fn updated(&self, rear: u8, side: u8) -> Repeater {
        let input = rear > 0;
        if side > 0 {
            Repeater { locked: true, ..*self }
        } else if input && !self.next_powered {
            Repeater { locked: false, next_powered: true, count: 0, ..*self }
        } else if !input && self.next_powered && self.count == 0 {
            Repeater { locked: false, next_powered: false, ..*self }
        } else {
            Repeater { locked: false, ..*self }
        }
    }

    /// Whether a change of the output is still to come.
    pub open spec fn awaits_commit(&self) -> bool {
        self.powered != self.next_powered
    }

    /// Whether the end of this tick is the one at which the delay runs
    /// out.
    pub open spec fn fires(&self) -> bool {
        self.count + 1 == self.delay
    }

    /// The repeater after the end of a tick: one tick more has been
    /// waited, and when that makes the delay, the output takes its new
    /// value and the counter starts again.
    pub open spec fn committed(&self) -> Repeater {
        if self.fires() {
            Repeater { powered: self.next_powered, count: 0, ..*self }
        } else {
            Repeater { count: (self.count + 1) as u8, ..*self }
        }
    }

    /// A repeater at rest with the given delay and output.
    pub fn new(delay: u8, powered: bool, locked: bool) -> (r: Repeater)
        requires
            1 <= delay <= 4,
        ensures
            r == (Repeater { powered, next_powered: powered, delay, count: 0, locked }),
            r.wf(),
    {
        Repeater { powered, next_powered: powered, delay, count: 0, locked }
    }

    pub fn delay(&self) -> (d: u8)
        ensures
            d == self.delay,
    {
        self.delay
    }

    /// Whether this repeater, feeding the side of another, locks it.
    pub fn will_lock(&self) -> (r: bool)
        ensures
            r == (self.power() > 0),
    {
        self.powered
    }

    pub fn update(&mut self, rear: u8, side: u8) -> (pending: bool)
        requires
            old(self).wf(),
        ensures
            *final(self) == old(self).updated(rear, side),
            pending == final(self).awaits_commit(),
            final(self).wf(),
    {
        let input = rear > 0;
        self.locked = side > 0;
        if !self.locked {
            if input && !self.next_powered {
                self.next_powered = true;
                self.count = 0;
            } else if !input && self.next_powered && self.count == 0 {
                self.next_powered = false;
            }
        }
        self.powered != self.next_powered
    }

    pub fn late_updatable(&mut self) -> (fired: bool)
        requires
            old(self).wf(),
        ensures
            *final(self) == old(self).committed(),
            fired == old(self).fires(),
            final(self).wf(),
    {
        self.count = self.count + 1;
        if self.count == self.delay {
            self.powered = self.next_powered;
            self.count = 0;
            true
        } else {
            false
        }
    }
}

impl OutputPower for Repeater {
    open spec fn power(&self) -> u8 {
        if self.powered {
            MAX_POWER
        } else {
            0
        }
    }

    fn output_power(&self) -> (p: u8) {
        if self.powered {
            MAX_POWER
        } else {
            0
        }
    }
}

} // verus!
