//! The tick: a propagation phase that looks at every node on the work
//! list, and an end-of-tick phase that lets the nodes that wait for it
//! take their next state.

use crate::blocks::redstone::Redstone;
use crate::blocks::{lemma_tick_keeps_kind, same_kind, Block, Updatable};
use crate::edge::MAX_POWER;
use crate::graph::{
    graph_edge_count, graph_node_weight, graph_set_node_weight, successors, Circuit,
};
use crate::order::{first_occurrences, unique_ids};
use crate::world::{sided, World};
use vstd::prelude::*;

verus! {

/// What a tick works on: the circuit, the nodes to look at, and the
/// number of the tick.
pub struct State {
    pub circuit: Circuit,
    pub updatable: Seq<u32>,
    pub tick: usize,
}

/// The propagation phase under way: the circuit, the work list (its last
/// node is looked at next), and the nodes found to wait for the end of
/// the tick.
pub struct Phase {
    pub circuit: Circuit,
    pub list: Seq<u32>,
    pub pending: Seq<u32>,
}

/// The end-of-tick phase under way: the circuit, and the work list of
/// the next tick.
pub struct Commit {
    pub circuit: Circuit,
    pub next: Seq<u32>,
}

/// The most nodes that one propagation phase looks at: those on the list
/// at its start, and sixteen more for each edge of the graph.
pub open spec fn budget(listed: nat, edges: nat) -> nat {
    if listed + 16 * edges > usize::MAX {
        usize::MAX as nat
    } else {
        listed + 16 * edges
    }
}

/// The number of the tick after `tick`. The numbers start again at 0
/// before they reach the one that marks a block no tick has committed.
pub open spec fn next_tick(tick: usize) -> usize {
    if tick >= usize::MAX - 1 {
        0
    } else {
        (tick + 1) as usize
    }
}

impl Phase {
    /// The phase after it has looked at the last node of the list.
    ///
    /// The node leaves the list. Its block sees what arrives and takes
    /// the state that follows; a wire that changes puts the nodes it
    /// feeds onto the list, and a block that then waits for the end of
    /// the tick is noted as pending. An index that is no node of the
    /// circuit is dropped.
    pub open spec fn visit(self) -> Phase
        recommends
            self.list.len() > 0,
    {
        let idx = self.list.last();
        let rest = self.list.drop_last();
        if !self.circuit.nodes.contains_key(idx) {
            Phase { list: rest, ..self }
        } else {
            let b = self.circuit.nodes[idx];
            let rear = self.circuit.rear_input(idx);
            let side = self.circuit.side_input(idx);
            Phase {
                circuit: self.circuit.with_block(idx, b.updated(rear, side)),
                list: rest + (if b.cascades(rear, side) {
                    self.circuit.successors(idx)
                } else {
                    Seq::empty()
                }),
                pending: if b.updated(rear, side).awaits_commit() {
                    self.pending.push(idx)
                } else {
                    self.pending
                },
            }
        }
    }

    /// The phase after it has looked at nodes until the list is empty,
    /// or at `fuel` nodes if the list is not empty by then.
    pub open spec fn run(self, fuel: nat) -> Phase
        decreases fuel,
    {
        if fuel == 0 || self.list.len() == 0 {
            self
        } else {
            self.visit().run((fuel - 1) as nat)
        }
    }
}

impl Commit {
    /// The phase after node `idx` has had its end of tick `tick`: its
    /// block takes its next state, and when that changes what it puts
    /// out, the nodes it feeds join the next work list.
    pub open spec fn settle(self, idx: u32, tick: usize) -> Commit {
        if !self.circuit.nodes.contains_key(idx) {
            self
        } else {
            let b = self.circuit.nodes[idx];
            Commit {
                circuit: self.circuit.with_block(idx, b.committed(tick)),
                next: self.next + (if b.fires(tick) {
                    self.circuit.successors(idx)
                } else {
                    Seq::empty()
                }),
            }
        }
    }

    /// The phase after the nodes of `todo` have had their end of tick,
    /// one after the other.
    pub open spec fn settle_all(self, todo: Seq<u32>, tick: usize) -> Commit
        decreases todo.len(),
    {
        if todo.len() == 0 {
            self
        } else {
            self.settle(todo[0], tick).settle_all(todo.drop_first(), tick)
        }
    }
}

impl State {
    /// The nodes that the propagation phase of the tick leaves on its
    /// list: those that it has not looked at when it has looked at as
    /// many as its budget allows. They are the first of the next list.
    pub open spec fn left_over(self) -> Seq<u32> {
        (Phase { circuit: self.circuit, list: self.updatable, pending: Seq::empty() }).run(
            budget(self.updatable.len(), self.circuit.edges.dom().len()),
        ).list
    }

    /// The state one tick later.
    ///
    /// The propagation phase works through the list. The nodes it found
    /// pending then have their end of tick, each once, in the order in
    /// which they were found. The next list holds what the propagation
    /// left undone, the pending nodes, and the nodes fed by those whose
    /// output changed.
    pub open spec fn stepped(self) -> State {
        let p = Phase { circuit: self.circuit, list: self.updatable, pending: Seq::empty() }.run(
            budget(self.updatable.len(), self.circuit.edges.dom().len()),
        );
        let todo = first_occurrences(p.pending);
        let c = Commit { circuit: p.circuit, next: p.list + todo }.settle_all(todo, self.tick);
        State { circuit: c.circuit, updatable: c.next, tick: next_tick(self.tick) }
    }

    /// The state `n` ticks later.
    pub open spec fn after(self, n: nat) -> State
        decreases n,
    {
        if n == 0 {
            self
        } else {
            self.stepped().after((n - 1) as nat)
        }
    }

    /// The state after the nodes of `triggers` have been forced to put
    /// out `level`, one after the other: each such node of the circuit
    /// becomes a wire of that strength, and the nodes it feeds join the
    /// work list. A node that holds its signal is passed over.
    pub open spec fn forced(self, triggers: Seq<u32>, level: u8) -> State
        decreases triggers.len(),
    {
        if triggers.len() == 0 {
            self
        } else {
            let t = triggers[0];
            let s = if self.circuit.nodes.contains_key(t) && !is_held(self.circuit.nodes[t]) {
                State {
                    circuit: self.circuit.with_block(t,
                        Block::Redstone(Redstone { signal: level, held: false })),
                    updatable: self.updatable + self.circuit.successors(t),
                    ..self
                }
            } else {
                self
            };
            s.forced(triggers.drop_first(), level)
        }
    }

    /// The state after a one-tick pulse on `triggers`: they are forced
    /// to the full signal, a tick passes, and they are forced to 0.
    pub open spec fn pulsed(self, triggers: Seq<u32>) -> State {
        self.forced(triggers, MAX_POWER).stepped().forced(triggers, 0)
    }
}

/// Whether a block is wire that holds its signal.
pub open spec fn is_held(b: Block) -> bool {
    b matches Block::Redstone(v) && v.held
}

/// Whether two circuits have the same nodes, with blocks of the same
/// kinds, and the same edges.
pub open spec fn same_shape(a: Circuit, b: Circuit) -> bool {
    &&& a.edges == b.edges
    &&& a.nodes.dom() == b.nodes.dom()
    &&& forall|n: u32| #[trigger] a.nodes.contains_key(n) ==> same_kind(a.nodes[n], b.nodes[n])
}

/// Replacing the block of a node by a well-formed block of the same kind
/// keeps a circuit well formed and of the same shape.
pub proof fn lemma_with_block(c: Circuit, idx: u32, b: Block)
    requires
        c.wf(),
        sided(c),
        c.nodes.contains_key(idx),
        b.wf(),
        same_kind(c.nodes[idx], b),
    ensures
        c.with_block(idx, b).wf(),
        sided(c.with_block(idx, b)),
        same_shape(c, c.with_block(idx, b)),
{
    let d = c.with_block(idx, b);
    assert(d.nodes.dom() =~= c.nodes.dom());
    assert forall|e: u32| #[trigger] d.edges.contains_key(e) implies d.nodes.contains_key(
        d.edges[e].source,
    ) && d.nodes.contains_key(d.edges[e].target) && d.edges[e].weight.wf() by {
        assert(c.edges.contains_key(e));
    }
    assert forall|e: u32| #[trigger]
        d.edges.contains_key(e) && d.edges[e].weight.side() implies (
    d.nodes[d.edges[e].target] is Repeater || d.nodes[d.edges[e].target] is Comparator) by {
        assert(c.edges.contains_key(e));
    }
}

/// Having the same shape is transitive and reflexive.
pub proof fn lemma_same_shape_trans(a: Circuit, b: Circuit, c: Circuit)
    requires
        same_shape(a, b),
        same_shape(b, c),
    ensures
        same_shape(a, c),
        same_shape(a, a),
{
    assert forall|n: u32| #[trigger] a.nodes.contains_key(n) implies same_kind(
        a.nodes[n],
        c.nodes[n],
    ) by {
        assert(b.nodes.contains_key(n));
    }
}

impl World {
    /// What a tick works on.
    pub open spec fn state(&self) -> State {
        State { circuit: self.circuit(), updatable: self.updatable@, tick: self.tick_counter }
    }

    /// Whether `other` differs from this world in the state only: the
    /// probes, triggers and constant sources are the same.
    pub open spec fn same_registry(&self, other: &World) -> bool {
        &&& self.probes == other.probes
        &&& self.triggers == other.triggers
        &&& self.constants == other.constants
    }

    /// A well-formed world stays well formed when its circuit is
    /// replaced by a well-formed one of the same shape.
    pub proof fn lemma_reshaped(&self, other: &World)
        requires
            self.wf(),
            self.same_registry(other),
            other.circuit().wf(),
            sided(other.circuit()),
            same_shape(self.circuit(), other.circuit()),
            self.sources_held(other.circuit()),
        ensures
            other.wf(),
    {
        assert forall|n: u32| #[trigger] other.registered(n)
            implies other.circuit().nodes.contains_key(
        n) && other.circuit().nodes[n] is Redstone by {
            assert(self.registered(n));
            assert(self.circuit().nodes.contains_key(n));
        }
        assert forall|n: u32| #[trigger] other.is_constant(n)
            implies other.circuit().nodes[n] == crate::blocks::source_block() by {
            assert(self.is_constant(n));
        }
    }

    /// Advances the world by one tick.
    ///
    /// The propagation phase looks at as many nodes as its budget
    /// allows. What it has not looked at by then stays on the list for
    /// the next tick, before the nodes that this tick puts there.
    pub fn step(&mut self)
        requires
            old(self).wf(),
        ensures
            final(self).wf(),
            final(self).state() == old(self).state().stepped(),
            old(self).state().left_over().len() <= final(self).updatable@.len(),
            final(self).updatable@.take(old(self).state().left_over().len() as int) == old(
                self,
            ).state().left_over(),
            same_shape(old(self).circuit(), final(self).circuit()),
            old(self).same_registry(final(self)),
    {
        let mut list: Vec<u32> = Vec::new();
        core::mem::swap(&mut list, &mut self.updatable);
        let edges = graph_edge_count(&self.blocks);
        let room = usize::MAX - list.len();
        let mut fuel: usize = if edges > room / 16 {
            usize::MAX
        } else {
            list.len() + 16 * edges
        };
        let tick = self.tick_counter;
        let ghost start = Phase { circuit: self.circuit(), list: list@, pending: Seq::empty() };
        let ghost done = start.run(fuel as nat);
        assert(fuel == budget(list@.len(), self.circuit().edges.dom().len()));
        proof {
            lemma_same_shape_trans(self.circuit(), self.circuit(), self.circuit());
        }
        while fuel > 0 && list.len() > 0
            invariant
                self.circuit().wf(),
                sided(self.circuit()),
                same_shape(old(self).circuit(), self.circuit()),
                old(self).same_registry(self),
                old(self).sources_held(self.circuit()),
                self.tick_counter == tick,
                (Phase { circuit: self.circuit(), list: list@, pending: self.updatable@ }).run(
                    fuel as nat,
                ) == done,
            decreases fuel,
        {
            let ghost before = Phase {
                circuit: self.circuit(),
                list: list@,
                pending: self.updatable@,
            };
            let idx = list.pop().unwrap();
            match graph_node_weight(&self.blocks, idx) {
                None => {},
                Some(found) => {
                    let mut block = found;
                    let pending = block.update(idx, &mut list, &self.blocks);
                    proof {
                        lemma_tick_keeps_kind(
                            found,
                            before.circuit.rear_input(idx),
                            before.circuit.side_input(idx),
                            tick,
                        );
                        lemma_with_block(before.circuit, idx, block);
                        lemma_same_shape_trans(
                            old(self).circuit(),
                            before.circuit,
                            before.circuit.with_block(idx, block),
                        );
                    }
                    graph_set_node_weight(&mut self.blocks, idx, block);
                    if pending {
                        self.updatable.push(idx);
                    }
                },
            }
            fuel = fuel - 1;
            assert((Phase { circuit: self.circuit(), list: list@, pending: self.updatable@ })
                == before.visit());
        }
        let todo = unique_ids(&self.updatable);
        let mut next: Vec<u32> = list;
        let mut k: usize = 0;
        while k < todo.len()
            invariant
                k <= todo.len(),
                next@ == done.list + todo@.take(k as int),
            decreases todo.len() - k,
        {
            next.push(todo[k]);
            k = k + 1;
            assert(todo@.take(k as int) =~= todo@.take(k - 1).push(todo@[k - 1]));
        }
        assert(todo@.take(todo@.len() as int) =~= todo@);
        let ghost settled = (Commit { circuit: self.circuit(), next: next@ }).settle_all(
            todo@,
            tick,
        );
        let mut i: usize = 0;
        assert(todo@.skip(0) =~= todo@);
        assert(next@.take(done.list.len() as int) =~= done.list);
        assert(done.list == old(self).state().left_over());
        while i < todo.len()
            invariant
                i <= todo.len(),
                self.circuit().wf(),
                sided(self.circuit()),
                same_shape(old(self).circuit(), self.circuit()),
                old(self).same_registry(self),
                old(self).sources_held(self.circuit()),
                self.tick_counter == tick,
                done.list.len() <= next@.len(),
                next@.take(done.list.len() as int) == done.list,
                (Commit { circuit: self.circuit(), next: next@ }).settle_all(
                    todo@.skip(i as int),
                    tick,
                ) == settled,
            decreases todo.len() - i,
        {
            let ghost before = Commit { circuit: self.circuit(), next: next@ };
            let idx = todo[i];
            assert(todo@.skip(i as int)[0] == idx);
            assert(todo@.skip(i as int).drop_first() =~= todo@.skip(i + 1));
            match graph_node_weight(&self.blocks, idx) {
                None => {},
                Some(found) => {
                    let mut block = found;
                    let fired = if block.is_redstone() {
                        false
                    } else {
                        block.late_updatable(tick)
                    };
                    if fired {
                        let mut fed = successors(&self.blocks, idx);
                        next.append(&mut fed);
                    }
                    proof {
                        lemma_tick_keeps_kind(found, 0, 0, tick);
                        lemma_with_block(before.circuit, idx, block);
                        lemma_same_shape_trans(
                            old(self).circuit(),
                            before.circuit,
                            before.circuit.with_block(idx, block),
                        );
                    }
                    graph_set_node_weight(&mut self.blocks, idx, block);
                },
            }
            i = i + 1;
            assert((Commit { circuit: self.circuit(), next: next@ }) == before.settle(idx, tick));
            assert(next@.take(done.list.len() as int) =~= before.next.take(
                done.list.len() as int,
            ));
        }
        self.updatable = next;
        self.tick_counter = if tick >= usize::MAX - 1 {
            0
        } else {
            tick + 1
        };
        proof {
            old(self).lemma_reshaped(self);
        }
    }

    /// Forces every trigger to put out `level` and puts the nodes that
    /// the triggers feed onto the work list.
    pub fn force_triggers(&mut self, level: u8)
        requires
            old(self).wf(),
            level <= MAX_POWER,
        ensures
            final(self).wf(),
            final(self).state() == old(self).state().forced(old(self).triggers.nodes(), level),
            same_shape(old(self).circuit(), final(self).circuit()),
            old(self).same_registry(final(self)),
    {
        let ghost all = self.triggers.nodes();
        let ghost goal = self.state().forced(all, level);
        let n = self.triggers.len();
        let mut i: usize = 0;
        proof {
            lemma_same_shape_trans(self.circuit(), self.circuit(), self.circuit());
            assert(all.skip(0) =~= all);
        }
        while i < n
            invariant
                i <= n,
                n == all.len(),
                all == self.triggers.nodes(),
                level <= MAX_POWER,
                self.wf(),
                same_shape(old(self).circuit(), self.circuit()),
                old(self).same_registry(self),
                self.state().forced(all.skip(i as int), level) == goal,
            decreases n - i,
        {
            let ghost before = *self;
            let t = self.triggers.node_at(i);
            assert(all.skip(i as int)[0] == t);
            assert(all.skip(i as int).drop_first() =~= all.skip(i + 1));
            assert(self.registered(t));
            let held = match graph_node_weight(&self.blocks, t) {
                Some(Block::Redstone(v)) => v.held,
                _ => false,
            };
            if !held {
                let block = Block::Redstone(Redstone::with_signal(level));
                let mut fed = successors(&self.blocks, t);
                proof {
                    lemma_with_block(before.circuit(), t, block);
                    lemma_same_shape_trans(
                        old(self).circuit(),
                        before.circuit(),
                        before.circuit().with_block(t, block),
                    );
                }
                graph_set_node_weight(&mut self.blocks, t, block);
                self.updatable.append(&mut fed);
                proof {
                    assert(!before.is_constant(t));
                    before.lemma_reshaped(self);
                }
            }
            i = i + 1;
        }
    }

    /// Gives the world a one-tick pulse on all its triggers.
    pub fn step_with_trigger(&mut self)
        requires
            old(self).wf(),
        ensures
            final(self).wf(),
            final(self).state() == old(self).state().pulsed(old(self).triggers.nodes()),
            same_shape(old(self).circuit(), final(self).circuit()),
            old(self).same_registry(final(self)),
    {
        self.force_triggers(MAX_POWER);
        let ghost mid = self.circuit();
        self.step();
        let ghost late = self.circuit();
        self.force_triggers(0);
        proof {
            lemma_same_shape_trans(old(self).circuit(), mid, late);
            lemma_same_shape_trans(old(self).circuit(), late, self.circuit());
        }
    }
}

} // verus!
