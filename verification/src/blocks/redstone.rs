//! Wire: a node that carries the strongest signal that reaches it.

use crate::blocks::OutputPower;
use crate::edge::MAX_POWER;
use vstd::prelude::*;

verus! {

/// A wire, or any other node that only passes a signal on: the face of a
/// solid block, a probe, a trigger, a constant source.
#[derive(Debug, Clone, Copy, PartialEq, Eq, Structural)]
pub struct Redstone {
    /// Signal strength, from 0 to 15.
    pub signal: u8,
    /// Whether the signal is held: a constant source keeps its signal
    /// whatever arrives.
    pub held: bool,
}

impl Redstone {
    pub open spec fn wf(&self) -> bool {
        self.signal <= MAX_POWER
    }

    /// The wire after it has seen `input` arrive: it takes the input at
    /// once.
    pub open spec fn updated(&self, input: u8) -> Redstone {
        if self.held {
            *self
        } else {
            Redstone { signal: input, held: false }
        }
    }

    /// Whether seeing `input` changes the wire, so that the nodes it
    /// feeds have to be looked at again.
    pub open spec fn cascades(&self, input: u8) -> bool {
        !self.held && self.signal != input
    }

    /// The wire of a constant source: it holds the full signal.
    pub fn constant() -> (r: Redstone)
        ensures
            r == (Redstone { signal: MAX_POWER, held: true }),
            r.wf(),
    {
        Redstone { signal: MAX_POWER, held: true }
    }

    pub fn with_signal(signal: u8) -> (r: Redstone)
        requires
            signal <= MAX_POWER,
        ensures
            r.signal == signal,
            !r.held,
            r.wf(),
    {
        Redstone { signal, held: false }
    }

    /// Takes `input` as the new signal and says whether that changed
    /// the wire.
    pub fn update(&mut self, input: u8) -> (changed: bool)
        requires
            old(self).wf(),
            input <= MAX_POWER,
        ensures
            *final(self) == old(self).updated(input),
            changed == old(self).cascades(input),
            final(self).wf(),
    {
        if self.held {
            return false;
        }
        let changed = self.signal != input;
        self.signal = input;
        changed
    }
}

impl OutputPower for Redstone {
    open spec fn power(&self) -> u8 {
        self.signal
    }

    fn output_power(&self) -> (p: u8) {
        self.signal
    }
}

} // verus!
