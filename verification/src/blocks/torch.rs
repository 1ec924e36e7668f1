//! Torch: lit exactly when nothing powers the block it stands on.

use crate::blocks::OutputPower;
use crate::edge::MAX_POWER;
use vstd::prelude::*;

verus! {

/// The value of `last_update` of a block that no tick has committed yet.
pub const NEVER: usize = usize::MAX;

#[derive(Debug, Clone, Copy, PartialEq, Eq, Structural)]
pub struct Torch {
    /// Whether the torch puts out a signal.
    pub lit: bool,
    /// What `lit` becomes at the end of the tick.
    pub next_lit: bool,
    /// The tick that last committed this torch.
    pub last_update: usize,
}

impl Torch {
    /// The torch after it has seen `input` arrive: it will be lit
    /// exactly when nothing arrives.
    pub open spec fn updated(&self, input: u8) -> Torch {
        Torch { next_lit: input == 0, ..*self }
    }

    pub open spec fn awaits_commit(&self) -> bool {
        self.lit != self.next_lit
    }

    /// Whether the end of tick `tick` commits the torch: it does unless
    /// that tick has done so before.
    pub open spec fn fires(&self, tick: usize) -> bool {
        self.last_update != tick
    }

    /// The torch after the end of tick `tick`.
    pub open spec fn committed(&self, tick: usize) -> Torch {
        if self.fires(tick) {
            Torch { lit: self.next_lit, last_update: tick, ..*self }
        } else {
            *self
        }
    }

    pub fn with_lit(lit: bool) -> (r: Torch)
        ensures
            r == (Torch { lit, next_lit: lit, last_update: NEVER }),
    {
        Torch { lit, next_lit: lit, last_update: NEVER }
    }

    pub fn update(&mut self, input: u8) -> (pending: bool)
        ensures
            *final(self) == old(self).updated(input),
            pending == final(self).awaits_commit(),
    {
        self.next_lit = input == 0;
        self.lit != self.next_lit
    }

    pub fn late_updatable(&mut self, tick_counter: usize) -> (fired: bool)
        ensures
            *final(self) == old(self).committed(tick_counter),
            fired == old(self).fires(tick_counter),
    {
        if tick_counter == self.last_update {
            return false;
        }
        self.last_update = tick_counter;
        self.lit = self.next_lit;
        true
    }
}

impl OutputPower for Torch {
    open spec fn power(&self) -> u8 {
        if self.lit {
            MAX_POWER
        } else {
            0
        }
    }

    fn output_power(&self) -> (p: u8) {
        if self.lit {
            MAX_POWER
        } else {
            0
        }
    }
}

} // verus!
