//! Edge weights: the channel through which a signal enters its target,
//! and the strength it loses on the way.

use core::ops::Add;
use vstd::prelude::*;
use vstd::std_specs::ops::AddSpecImpl;

verus! {

/// The largest signal strength, and so the largest loss worth recording.
pub const MAX_POWER: u8 = 15;

/// The face through which a component takes a signal in.
#[derive(Debug, Clone, Copy, PartialEq, Eq, Structural)]
pub enum InputSide {
    Rear,
    Side,
}

/// The weight of an edge of the block graph.
///
/// `Rear(loss)` feeds the primary input of its target, `Side(loss)` its
/// gating input. `loss` is what the signal loses along the edge.
#[derive(Debug, Clone, Copy, PartialEq, Eq, Structural)]
pub enum Edge {
    Rear(u8),
    Side(u8),
}

/// The smaller of `a + b` and the largest signal strength.
pub open spec fn capped_sum(a: u8, b: u8) -> u8 {
    if a + b > MAX_POWER {
        MAX_POWER
    } else {
        (a + b) as u8
    }
}

/// What is left of a signal of strength `power` after losing `loss`.
pub open spec fn attenuated(power: u8, loss: u8) -> u8 {
    if power > loss {
        (power - loss) as u8
    } else {
        0
    }
}

impl Edge {
    /// Whether the edge enters the side face of its target.
    pub open spec fn side(self) -> bool {
        self is Side
    }

    /// The loss along the edge.
    pub open spec fn loss(self) -> u8 {
        match self {
            Edge::Rear(v) => v,
            Edge::Side(v) => v,
        }
    }

    /// An edge weight is well formed when its loss is a signal strength.
    pub open spec fn wf(self) -> bool {
        self.loss() <= MAX_POWER
    }

    /// The weight of a path made of an edge of weight `self` followed by
    /// one of weight `rhs`: the losses add up, capped at the largest
    /// signal strength, and the path enters its target as `rhs` does.
    pub open spec fn join(self, rhs: Edge) -> Edge
        recommends
            self is Rear,
    {
        match rhs {
            Edge::Rear(b) => Edge::Rear(capped_sum(self.loss(), b)),
            Edge::Side(b) => Edge::Side(capped_sum(self.loss(), b)),
        }
    }

    /// The order of edge weights: by channel first, `Rear` before
    /// `Side`, then by loss.
    pub open spec fn before(self, other: Edge) -> bool {
        (self is Rear && other is Side) || (self.side() == other.side() && self.loss()
            < other.loss())
    }

    pub fn is_side(&self) -> (r: bool)
        ensures
            r == self.side(),
    {
        match self {
            Edge::Rear(_) => false,
            Edge::Side(_) => true,
        }
    }

    pub fn strength_loss(&self) -> (r: u8)
        ensures
            r == self.loss(),
    {
        match self {
            Edge::Rear(v) => *v,
            Edge::Side(v) => *v,
        }
    }

    /// Whether `self` comes strictly before `other` in the order of
    /// edge weights.
    pub fn less_than(&self, other: &Edge) -> (r: bool)
        ensures
            r == self.before(*other),
    {
        match (self, other) {
            (Edge::Rear(a), Edge::Rear(b)) => *a < *b,
            (Edge::Rear(_), Edge::Side(_)) => true,
            (Edge::Side(_), Edge::Rear(_)) => false,
            (Edge::Side(a), Edge::Side(b)) => *a < *b,
        }
    }

    /// What arrives at the target of this edge when its source puts out
    /// `power`.
    pub fn carry(&self, power: u8) -> (r: u8)
        ensures
            r == attenuated(power, self.loss()),
            r <= power,
    {
        power.saturating_sub(self.strength_loss())
    }
}

/// The sum of two losses, capped at the largest signal strength.
fn add_losses(a: u8, b: u8) -> (r: u8)
    ensures
        r == capped_sum(a, b),
{
    if a > MAX_POWER || b > MAX_POWER - a {
        MAX_POWER
    } else {
        a + b
    }
}

impl Add<&Edge> for Edge {
    type Output = Edge;

    fn add(self, rhs: &Edge) -> (r: Edge) {
        match *rhs {
            Edge::Rear(b) => Edge::Rear(add_losses(self.strength_loss(), b)),
            Edge::Side(b) => Edge::Side(add_losses(self.strength_loss(), b)),
        }
    }
}

impl AddSpecImpl<&Edge> for Edge {
    open spec fn obeys_add_spec() -> bool {
        true
    }

    open spec fn add_req(self, rhs: &Edge) -> bool {
        self is Rear
    }

    open spec fn add_spec(self, rhs: &Edge) -> Edge {
        self.join(*rhs)
    }
}

/// Joining keeps edge weights well formed, whatever the operands.
pub proof fn lemma_join_wf(a: Edge, b: Edge)
    ensures
        a.join(b).wf(),
        a.join(b).side() == b.side(),
{
}

/// Joining rear edges is associative: the weight of a path does not
/// depend on how it is cut into pieces.
pub proof fn lemma_join_assoc(a: Edge, b: Edge, c: Edge)
    requires
        a is Rear,
        b is Rear,
    ensures
        a.join(b).join(c) == a.join(b.join(c)),
{
}

/// A rear edge without loss is a left identity of joining well-formed
/// edges.
pub proof fn lemma_join_zero(e: Edge)
    requires
        e.wf(),
    ensures
        Edge::Rear(0).join(e) == e,
{
}

/// A signal never gains strength along a path, and what a path of two
/// edges delivers is what the second delivers of what the first does.
pub proof fn lemma_attenuation_composes(power: u8, a: Edge, b: Edge)
    requires
        power <= MAX_POWER,
        a is Rear,
    ensures
        attenuated(power, a.join(b).loss()) == attenuated(attenuated(power, a.loss()), b.loss()),
{
}

/// The order of edge weights is a strict total order.
pub proof fn lemma_edge_order(a: Edge, b: Edge, c: Edge)
    ensures
        !a.before(a),
        a.before(b) && b.before(c) ==> a.before(c),
        a.before(b) || b.before(a) || a == b,
        !(a.before(b) && b.before(a)),
{
}

} // verus!
