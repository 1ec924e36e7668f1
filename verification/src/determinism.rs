//! The tick does not depend on the order of the work list, as long as
//! no wire on the list feeds anything.

use crate::blocks::{lemma_tick_keeps_kind, same_kind, Block, OutputPower, Updatable};
use crate::graph::Circuit;
use crate::order::{ascending, first_occurrences, lemma_first_occurrences, lists};
use crate::world_logic::{budget, next_tick, Commit, Phase, State};
use vstd::prelude::*;

verus! {

/// The members of `set` below `k`, in ascending order.
pub open spec fn below(set: Set<u32>, k: nat) -> Seq<u32>
    decreases k,
{
    if k == 0 {
        Seq::empty()
    } else if k - 1 <= u32::MAX && set.contains((k - 1) as u32) {
        below(set, (k - 1) as nat).push((k - 1) as u32)
    } else {
        below(set, (k - 1) as nat)
    }
}

/// The members of a set below a bound can be listed in ascending order.
pub proof fn lemma_below(set: Set<u32>, k: nat)
    requires
        k <= u32::MAX + 1,
    ensures
        forall|i: int, j: int|
            0 <= i < j < below(set, k).len() ==> below(set, k)[i] < below(set, k)[j],
        forall|x: u32|
            #![trigger below(set, k).contains(x)]
            below(set, k).contains(x) <==> (set.contains(x) && x < k),
    decreases k,
{
    if k > 0 {
        let prev = below(set, (k - 1) as nat);
        let cur = below(set, k);
        lemma_below(set, (k - 1) as nat);
        let top = (k - 1) as u32;
        if set.contains(top) {
            assert(cur == prev.push(top));
            assert forall|i: int, j: int| 0 <= i < j < cur.len() implies cur[i] < cur[j] by {
                assert(cur[i] == prev[i]);
                if j < prev.len() {
                    assert(cur[j] == prev[j]);
                    assert(prev[i] < prev[j]);
                } else {
                    assert(cur[j] == top);
                    assert(prev.contains(prev[i]));
                    assert(set.contains(prev[i]) && prev[i] < (k - 1) as nat);
                }
            }
            assert forall|x: u32| cur.contains(x) <==> (set.contains(x) && x < k) by {
                if cur.contains(x) {
                    let i = choose|i: int| 0 <= i < cur.len() && cur[i] == x;
                    if i < prev.len() {
                        assert(prev[i] == x);
                        assert(prev.contains(x));
                    }
                }
                if set.contains(x) && x < k {
                    if x == top {
                        assert(cur[cur.len() - 1] == x);
                    } else {
                        assert(prev.contains(x));
                        let i = choose|i: int| 0 <= i < prev.len() && prev[i] == x;
                        assert(cur[i] == x);
                    }
                }
            }
        } else {
            assert forall|x: u32| cur.contains(x) <==> (set.contains(x) && x < k) by {
                if set.contains(x) && x < k {
                    assert(x != top);
                }
            }
        }
    }
}

/// The ascending list of a set of indices lists the set.
pub proof fn lemma_ascending_lists(set: Set<u32>)
    ensures
        lists(ascending(set), set),
{
    let all = below(set, (u32::MAX + 1) as nat);
    lemma_below(set, (u32::MAX + 1) as nat);
    assert(lists(all, set));
}

/// The nodes that a node feeds are the targets of the edges that start
/// at it.
pub proof fn lemma_successors(c: Circuit, n: u32)
    ensures
        forall|m: u32|
            c.successors(n).contains(m) <==> exists|e: u32|
                c.edges.contains_key(e) && c.edges[e].source == n && c.edges[e].target == m,
{
    let ids = ascending(c.outgoing(n));
    lemma_ascending_lists(c.outgoing(n));
    let s = c.successors(n);
    assert forall|m: u32|
        s.contains(m) <==> exists|e: u32|
            c.edges.contains_key(e) && c.edges[e].source == n && c.edges[e].target == m by {
        if s.contains(m) {
            let i = choose|i: int| 0 <= i < s.len() && s[i] == m;
            assert(ids.contains(ids[i]));
            assert(c.outgoing(n).contains(ids[i]));
            assert(c.edges[ids[i]].target == m);
        }
        if exists|e: u32|
            c.edges.contains_key(e) && c.edges[e].source == n && c.edges[e].target == m {
            let e = choose|e: u32|
                c.edges.contains_key(e) && c.edges[e].source == n && c.edges[e].target == m;
            assert(c.outgoing(n).contains(e));
            assert(ids.contains(e));
            let i = choose|i: int| 0 <= i < ids.len() && ids[i] == e;
            assert(s[i] == m);
        }
    }
}

/// Whether node `n` is quiet: it is no wire, or it feeds nothing. What a
/// quiet node puts out as seen by other nodes does not change while the
/// work list is worked through.
pub open spec fn quiet(c: Circuit, n: u32) -> bool {
    !(c.nodes[n] is Redstone) || forall|e: u32| #[trigger]
        c.edges.contains_key(e) ==> c.edges[e].source != n
}

/// Whether every node of the circuit on the list is quiet.
pub open spec fn calm(c: Circuit, list: Seq<u32>) -> bool {
    forall|i: int|
        0 <= i < list.len() && c.nodes.contains_key(#[trigger] list[i]) ==> quiet(c, list[i])
}

/// Whether every wire of the circuit that feeds something is fed by
/// nothing.
pub open spec fn tame(c: Circuit) -> bool {
    forall|n: u32, e: u32|
        #![trigger c.nodes[n], c.edges[e]]
        c.nodes.contains_key(n) && c.edges.contains_key(e) && c.edges[e].target == n ==> quiet(
            c,
            n,
        )
}

/// Whether each edge of the circuit joins two of its nodes.
pub open spec fn linked(c: Circuit) -> bool {
    forall|e: u32| #[trigger]
        c.edges.contains_key(e) ==> c.nodes.contains_key(c.edges[e].source)
            && c.nodes.contains_key(c.edges[e].target)
}

/// The block of node `n` after it has seen what arrives at it in `c`.
pub open spec fn refreshed(c: Circuit, n: u32) -> Block {
    c.nodes[n].updated(c.rear_input(n), c.side_input(n))
}

/// Whether `c` is `c0` with the nodes of `visited` refreshed.
pub open spec fn seen_through(c0: Circuit, visited: Set<u32>, c: Circuit) -> bool {
    &&& c.edges == c0.edges
    &&& c.nodes.dom() == c0.nodes.dom()
    &&& forall|n: u32| #[trigger]
        c.nodes.contains_key(n) ==> c.nodes[n] == if visited.contains(n) {
            refreshed(c0, n)
        } else {
            c0.nodes[n]
        }
}

/// Whether two lists hold the same indices.
pub open spec fn same_members(a: Seq<u32>, b: Seq<u32>) -> bool {
    forall|n: u32| a.contains(n) <==> b.contains(n)
}

/// Seeing the same input a second time changes nothing.
pub proof fn lemma_update_idempotent(b: Block, rear: u8, side: u8)
    ensures
        b.updated(rear, side).updated(rear, side) == b.updated(rear, side),
        !(b is Redstone) ==> b.updated(rear, side).power() == b.power(),
        b is Redstone ==> !b.updated(rear, side).awaits_commit(),
        !(b is Redstone) ==> !b.cascades(rear, side),
{
}

/// Two circuits with the same edges, in which the source of each edge
/// puts out the same, bring the same to each face of each node.
pub proof fn lemma_same_strongest(c: Circuit, d: Circuit, n: u32, side: bool, p: u8)
    requires
        c.edges == d.edges,
        forall|e: u32| #[trigger]
            c.edges.contains_key(e) ==> c.nodes[c.edges[e].source].power()
                == d.nodes[c.edges[e].source].power(),
    ensures
        c.strongest(n, side, p) == d.strongest(n, side, p),
    decreases p,
{
    if p > 0 {
        assert(c.reaches(n, side, p) == d.reaches(n, side, p)) by {
            if c.reaches(n, side, p) {
                let e = choose|e: u32|
                    c.incoming(n).contains(e) && c.edges[e].weight.side() == side && c.delivered(e)
                        >= p;
                assert(c.edges.contains_key(e));
                assert(d.incoming(n).contains(e) && d.delivered(e) >= p);
            }
            if d.reaches(n, side, p) {
                let e = choose|e: u32|
                    d.incoming(n).contains(e) && d.edges[e].weight.side() == side && d.delivered(e)
                        >= p;
                assert(c.edges.contains_key(e));
                assert(c.incoming(n).contains(e) && c.delivered(e) >= p);
            }
        }
        lemma_same_strongest(c, d, n, side, (p - 1) as u8);
    }
}

/// A node that feeds nothing has no successors.
pub proof fn lemma_no_successors(c: Circuit, n: u32)
    requires
        forall|e: u32| #[trigger] c.edges.contains_key(e) ==> c.edges[e].source != n,
    ensures
        c.successors(n) == Seq::<u32>::empty(),
{
    lemma_successors(c, n);
    let s = c.successors(n);
    if s.len() > 0 {
        assert(s.contains(s[0]));
    }
    assert(s =~= Seq::<u32>::empty());
}

/// The nodes that are refreshed once the list `list` has been worked
/// through, if those of `visited` were before.
pub open spec fn visited_after(c0: Circuit, visited: Set<u32>, list: Seq<u32>) -> Set<u32> {
    Set::new(|n: u32| visited.contains(n) || (list.contains(n) && c0.nodes.contains_key(n)))
}

/// Working through a calm list refreshes each node on it, once, with
/// what arrived at it before the first was looked at, and notes as
/// pending those that then wait for the end of the tick.
pub proof fn lemma_run(c0: Circuit, visited: Set<u32>, p: Phase, fuel: nat)
    requires
        linked(c0),
        seen_through(c0, visited, p.circuit),
        forall|n: u32| visited.contains(n) ==> c0.nodes.contains_key(n) && quiet(c0, n),
        calm(c0, p.list),
        fuel >= p.list.len(),
    ensures
        p.run(fuel).list.len() == 0,
        seen_through(c0, visited_after(c0, visited, p.list), p.run(fuel).circuit),
        forall|n: u32|
            p.run(fuel).pending.contains(n) <==> (p.pending.contains(n) || (p.list.contains(n)
                && c0.nodes.contains_key(n) && refreshed(c0, n).awaits_commit())),
    decreases p.list.len(),
{
    if p.list.len() == 0 {
        assert(visited_after(c0, visited, p.list) =~= visited);
    } else {
        let x = p.list.last();
        let rest = p.list.drop_last();
        let q = p.visit();
        assert(p.run(fuel) == q.run((fuel - 1) as nat));
        assert(p.list[p.list.len() - 1] == x);
        assert forall|n: u32| p.list.contains(n) <==> (rest.contains(n) || n == x) by {
            if p.list.contains(n) {
                let i = choose|i: int| 0 <= i < p.list.len() && p.list[i] == n;
                if i < rest.len() {
                    assert(rest[i] == n);
                }
            }
            if rest.contains(n) {
                let i = choose|i: int| 0 <= i < rest.len() && rest[i] == n;
                assert(p.list[i] == n);
            }
        }
        assert(calm(c0, rest)) by {
            assert forall|i: int|
                0 <= i < rest.len() && c0.nodes.contains_key(#[trigger] rest[i]) implies quiet(
                c0,
                rest[i],
            ) by {
                assert(p.list[i] == rest[i]);
            }
        }
        if !p.circuit.nodes.contains_key(x) {
            assert(q == Phase { list: rest, ..p });
            lemma_run(c0, visited, q, (fuel - 1) as nat);
            assert(visited_after(c0, visited, rest) =~= visited_after(c0, visited, p.list));
            assert(q.pending == p.pending);
            assert forall|n: u32|
                p.run(fuel).pending.contains(n) <==> (p.pending.contains(n) || (p.list.contains(
                    n,
                ) && c0.nodes.contains_key(n) && refreshed(c0, n).awaits_commit())) by {
                assert(q.run((fuel - 1) as nat).pending.contains(n) <==> (q.pending.contains(n)
                    || (rest.contains(n) && c0.nodes.contains_key(n) && refreshed(
                    c0,
                    n,
                ).awaits_commit())));
            }
        } else {
            let c = p.circuit;
            let b = c.nodes[x];
            assert(c0.nodes.contains_key(x));
            assert(quiet(c0, x));
            assert forall|e: u32| #[trigger] c0.edges.contains_key(e)
                implies c0.nodes[c0.edges[e].source].power()
                == c.nodes[c0.edges[e].source].power() by {
                let s = c0.edges[e].source;
                assert(c.nodes.contains_key(s));
                if visited.contains(s) {
                    lemma_update_idempotent(c0.nodes[s], c0.rear_input(s), c0.side_input(s));
                }
            }
            lemma_same_strongest(c0, c, x, false, crate::edge::MAX_POWER);
            lemma_same_strongest(c0, c, x, true, crate::edge::MAX_POWER);
            let rear = c0.rear_input(x);
            let side = c0.side_input(x);
            assert(c.rear_input(x) == rear && c.side_input(x) == side);
            lemma_update_idempotent(c0.nodes[x], rear, side);
            lemma_update_idempotent(b, rear, side);
            assert(b.updated(rear, side) == refreshed(c0, x));
            lemma_tick_keeps_kind(c0.nodes[x], rear, side, 0);
            assert(same_kind(c0.nodes[x], b));
            if b is Redstone {
                lemma_no_successors(c, x);
            }
            assert(rest + Seq::<u32>::empty() =~= rest);
            assert(q.list == rest);
            let grown = visited.insert(x);
            assert(seen_through(c0, grown, q.circuit)) by {
                assert(q.circuit.nodes.dom() =~= c0.nodes.dom());
            }
            lemma_run(c0, grown, q, (fuel - 1) as nat);
            assert(visited_after(c0, grown, rest) =~= visited_after(c0, visited, p.list));
            assert forall|n: u32|
                q.pending.contains(n) <==> (p.pending.contains(n) || (n == x && refreshed(
                    c0,
                    x,
                ).awaits_commit())) by {
                if refreshed(c0, x).awaits_commit() {
                    assert(q.pending == p.pending.push(x));
                    if q.pending.contains(n) {
                        let i = choose|i: int| 0 <= i < q.pending.len() && q.pending[i] == n;
                        if i < p.pending.len() {
                            assert(p.pending[i] == n);
                        }
                    }
                    if p.pending.contains(n) {
                        let i = choose|i: int| 0 <= i < p.pending.len() && p.pending[i] == n;
                        assert(q.pending[i] == n);
                    }
                    if n == x {
                        assert(q.pending[q.pending.len() - 1] == n);
                    }
                } else {
                    assert(q.pending == p.pending);
                }
            }
            assert forall|n: u32|
                p.run(fuel).pending.contains(n) <==> (p.pending.contains(n) || (p.list.contains(
                    n,
                ) && c0.nodes.contains_key(n) && refreshed(c0, n).awaits_commit())) by {
                assert(q.run((fuel - 1) as nat).pending.contains(n) <==> (q.pending.contains(n)
                    || (rest.contains(n) && c0.nodes.contains_key(n) && refreshed(
                    c0,
                    n,
                ).awaits_commit())));
                assert(q.pending.contains(n) <==> (p.pending.contains(n) || (n == x && refreshed(
                    c0,
                    x,
                ).awaits_commit())));
                assert(p.list.contains(n) <==> (rest.contains(n) || n == x));
            }
        }
    }
}

/// The end of the tick for a list of nodes without repetitions lets
/// each of them take its next state, once, and puts the nodes fed by
/// those whose output changes onto the next work list.
pub proof fn lemma_settle_all(c: Commit, todo: Seq<u32>, tick: usize)
    requires
        todo.no_duplicates(),
    ensures
        c.settle_all(todo, tick).circuit.edges == c.circuit.edges,
        c.settle_all(todo, tick).circuit.nodes.dom() == c.circuit.nodes.dom(),
        forall|n: u32| #[trigger]
            c.circuit.nodes.contains_key(n) ==> c.settle_all(todo, tick).circuit.nodes[n]
                == if todo.contains(
                n,
            ) {
                c.circuit.nodes[n].committed(tick)
            } else {
                c.circuit.nodes[n]
            },
        forall|m: u32|
            c.settle_all(todo, tick).next.contains(m) <==> (c.next.contains(m) || exists|n: u32|
                todo.contains(n) && c.circuit.nodes.contains_key(n)
                    && #[trigger] c.circuit.nodes[n].fires(
                    tick,
                ) && c.circuit.successors(n).contains(m)),
    decreases todo.len(),
{
    if todo.len() > 0 {
        let x = todo[0];
        let rest = todo.drop_first();
        let d = c.settle(x, tick);
        assert(c.settle_all(todo, tick) == d.settle_all(rest, tick));
        assert forall|n: u32| todo.contains(n) <==> (rest.contains(n) || n == x) by {
            if todo.contains(n) {
                let i = choose|i: int| 0 <= i < todo.len() && todo[i] == n;
                if i > 0 {
                    assert(rest[i - 1] == n);
                }
            }
            if rest.contains(n) {
                let i = choose|i: int| 0 <= i < rest.len() && rest[i] == n;
                assert(todo[i + 1] == n);
            }
        }
        assert(!rest.contains(x)) by {
            if rest.contains(x) {
                let i = choose|i: int| 0 <= i < rest.len() && rest[i] == x;
                assert(todo[i + 1] == todo[0]);
            }
        }
        assert(rest.no_duplicates()) by {
            assert forall|i: int, j: int|
                0 <= i < rest.len() && 0 <= j < rest.len() && i != j implies rest[i]
                != rest[j] by {
                assert(todo[i + 1] != todo[j + 1]);
            }
        }
        lemma_settle_all(d, rest, tick);
        let r = d.settle_all(rest, tick);
        assert(d.circuit.edges == c.circuit.edges);
        assert(d.circuit.nodes.dom() =~= c.circuit.nodes.dom());
        assert forall|n: u32| d.circuit.successors(n) == c.circuit.successors(n) by {}
        assert forall|m: u32|
            d.next.contains(m) <==> (c.next.contains(m) || (c.circuit.nodes.contains_key(x)
                && c.circuit.nodes[x].fires(tick) && c.circuit.successors(x).contains(m))) by {
            let extra = if c.circuit.nodes.contains_key(x) && c.circuit.nodes[x].fires(tick) {
                c.circuit.successors(x)
            } else {
                Seq::<u32>::empty()
            };
            if c.circuit.nodes.contains_key(x) {
                assert(d.next == c.next + extra);
            } else {
                assert(d.next == c.next);
            }
            if d.next.contains(m) && c.circuit.nodes.contains_key(x) {
                let i = choose|i: int| 0 <= i < d.next.len() && d.next[i] == m;
                if i < c.next.len() {
                    assert(c.next[i] == m);
                } else {
                    assert(extra[i - c.next.len()] == m);
                    assert(extra.contains(m));
                }
            }
            if c.next.contains(m) && c.circuit.nodes.contains_key(x) {
                let i = choose|i: int| 0 <= i < c.next.len() && c.next[i] == m;
                assert(d.next[i] == m);
            }
            if c.circuit.nodes.contains_key(x) && c.circuit.nodes[x].fires(tick)
                && c.circuit.successors(x).contains(m) {
                let i = choose|i: int| 0 <= i < extra.len() && extra[i] == m;
                assert(d.next[c.next.len() + i] == m);
            }
        }
        assert forall|n: u32| #[trigger] c.circuit.nodes.contains_key(n) implies r.circuit.nodes[n]
            == if todo.contains(n) {
            c.circuit.nodes[n].committed(tick)
        } else {
            c.circuit.nodes[n]
        } by {
            assert(d.circuit.nodes.contains_key(n));
        }
        assert forall|m: u32|
            r.next.contains(m) <==> (c.next.contains(m) || exists|n: u32|
                todo.contains(n) && c.circuit.nodes.contains_key(n)
                    && #[trigger] c.circuit.nodes[n].fires(
                    tick,
                ) && c.circuit.successors(n).contains(m)) by {
            if r.next.contains(m) && !d.next.contains(m) {
                let n = choose|n: u32|
                    rest.contains(n) && d.circuit.nodes.contains_key(n)
                        && #[trigger] d.circuit.nodes[n].fires(
                        tick,
                    ) && d.circuit.successors(n).contains(m);
                assert(n != x);
                assert(c.circuit.nodes.contains_key(n));
                assert(d.circuit.nodes[n] == c.circuit.nodes[n]);
                assert(todo.contains(n) && c.circuit.nodes[n].fires(tick)
                    && c.circuit.successors(n).contains(m));
            }
            if d.next.contains(m) && !c.next.contains(m) {
                assert(todo.contains(x) && c.circuit.nodes[x].fires(tick)
                    && c.circuit.successors(x).contains(m));
            }
            if exists|n: u32|
                todo.contains(n) && c.circuit.nodes.contains_key(n)
                    && #[trigger] c.circuit.nodes[n].fires(
                    tick,
                ) && c.circuit.successors(n).contains(m) {
                let n = choose|n: u32|
                    todo.contains(n) && c.circuit.nodes.contains_key(n)
                        && #[trigger] c.circuit.nodes[n].fires(
                        tick,
                    ) && c.circuit.successors(n).contains(m);
                if n != x {
                    assert(rest.contains(n));
                    assert(d.circuit.nodes.contains_key(n));
                    assert(d.circuit.nodes[n] == c.circuit.nodes[n]);
                    assert(d.circuit.nodes[n].fires(tick));
                    assert(d.circuit.successors(n).contains(m));
                }
            }
        }
    }
}

/// The block of node `n` one tick after the state `s`, if no wire on
/// the work list feeds anything: a node on the list is refreshed, and
/// takes its next state if it then waits for the end of the tick; a
/// node that is not on the list stays as it is.
pub open spec fn ticked(s: State, n: u32) -> Block {
    if s.updatable.contains(n) {
        let r = refreshed(s.circuit, n);
        if r.awaits_commit() {
            r.committed(s.tick)
        } else {
            r
        }
    } else {
        s.circuit.nodes[n]
    }
}

/// Whether node `m` is on the work list one tick after the state `s`,
/// if no wire on the list feeds anything: it waited for the end of the
/// tick, or it is fed by a node whose output changed at the end of the
/// tick.
pub open spec fn woken(s: State, m: u32) -> bool {
    exists|n: u32|
        s.updatable.contains(n) && s.circuit.nodes.contains_key(n) && #[trigger] refreshed(
            s.circuit,
            n,
        ).awaits_commit() && (m == n || (refreshed(s.circuit, n).fires(s.tick)
            && s.circuit.successors(n).contains(m)))
}

/// Whether no wire on the work list feeds anything, and the list is one
/// that a machine can hold, now and for each of the `n` ticks to come.
pub open spec fn steady(s: State, n: nat) -> bool
    decreases n,
{
    n == 0 || (s.updatable.len() <= usize::MAX && calm(s.circuit, s.updatable) && steady(
        s.stepped(),
        (n - 1) as nat,
    ))
}

/// What a tick does when no wire on the work list feeds anything: each
/// node on the list sees what arrived before the tick, whatever its
/// place on the list, and the nodes that then wait for the end of the
/// tick take their next state, each once.
pub proof fn lemma_stepped(s: State)
    requires
        linked(s.circuit),
        s.updatable.len() <= usize::MAX,
        calm(s.circuit, s.updatable),
    ensures
        s.stepped().circuit.edges == s.circuit.edges,
        s.stepped().circuit.nodes.dom() == s.circuit.nodes.dom(),
        forall|n: u32| #[trigger]
            s.circuit.nodes.contains_key(n) ==> s.stepped().circuit.nodes[n] == ticked(s, n),
        forall|m: u32| s.stepped().updatable.contains(m) <==> woken(s, m),
        s.stepped().tick == next_tick(s.tick),
        linked(s.stepped().circuit),
        s.left_over().len() == 0,
{
    let c0 = s.circuit;
    let fuel = budget(s.updatable.len(), c0.edges.dom().len());
    let start = Phase { circuit: c0, list: s.updatable, pending: Seq::empty() };
    lemma_run(c0, Set::empty(), start, fuel);
    let p = start.run(fuel);
    let todo = first_occurrences(p.pending);
    lemma_first_occurrences(p.pending);
    let base = Commit { circuit: p.circuit, next: p.list + todo };
    lemma_settle_all(base, todo, s.tick);
    let r = base.settle_all(todo, s.tick);
    assert(p.list + todo =~= todo);
    let seen = visited_after(c0, Set::empty(), s.updatable);
    assert forall|n: u32| #[trigger] c0.nodes.contains_key(n) implies r.circuit.nodes[n]
        == ticked(s, n) by {
        assert(p.circuit.nodes.contains_key(n));
        assert(seen.contains(n) == s.updatable.contains(n));
        assert(todo.contains(n) == p.pending.contains(n));
    }
    assert(base.next == todo);
    assert forall|n: u32| p.circuit.successors(n) == c0.successors(n) by {}
    assert forall|m: u32| r.next.contains(m) <==> woken(s, m) by {
        assert(r.next.contains(m) <==> (base.next.contains(m) || exists|n: u32|
            todo.contains(n) && p.circuit.nodes.contains_key(n)
                && #[trigger] p.circuit.nodes[n].fires(
                s.tick,
            ) && p.circuit.successors(n).contains(m)));
        if r.next.contains(m) {
            if todo.contains(m) {
                assert(p.pending.contains(m));
                assert(s.updatable.contains(m) && c0.nodes.contains_key(m) && refreshed(
                    c0,
                    m,
                ).awaits_commit());
            } else {
                let n = choose|n: u32|
                    todo.contains(n) && p.circuit.nodes.contains_key(n)
                        && #[trigger] p.circuit.nodes[n].fires(
                        s.tick,
                    ) && p.circuit.successors(n).contains(m);
                assert(p.pending.contains(n));
                assert(seen.contains(n));
                assert(p.circuit.nodes[n] == refreshed(c0, n));
                assert(p.circuit.successors(n) == c0.successors(n));
                assert(s.updatable.contains(n) && c0.nodes.contains_key(n) && refreshed(
                    c0,
                    n,
                ).awaits_commit() && refreshed(c0, n).fires(s.tick) && c0.successors(n).contains(
                    m,
                ));
            }
        }
        if woken(s, m) {
            let n = choose|n: u32|
                s.updatable.contains(n) && c0.nodes.contains_key(n) && #[trigger] refreshed(
                    c0,
                    n,
                ).awaits_commit() && (m == n || (refreshed(c0, n).fires(s.tick)
                    && c0.successors(n).contains(m)));
            assert(p.pending.contains(n));
            assert(todo.contains(n));
            assert(seen.contains(n));
            assert(p.circuit.nodes.contains_key(n));
            assert(p.circuit.nodes[n] == refreshed(c0, n));
            if m == n {
                assert(base.next.contains(m));
            } else {
                assert(p.circuit.successors(n) == c0.successors(n));
                assert(todo.contains(n) && p.circuit.nodes.contains_key(n)
                    && p.circuit.nodes[n].fires(s.tick) && p.circuit.successors(n).contains(m));
            }
        }
    }
    assert forall|e: u32| #[trigger] r.circuit.edges.contains_key(e)
        implies r.circuit.nodes.contains_key(
    r.circuit.edges[e].source) && r.circuit.nodes.contains_key(r.circuit.edges[e].target) by {
        assert(c0.edges.contains_key(e));
    }
}

/// Two work lists with the same members give the same circuit one tick
/// later, and work lists with the same members again, as long as no
/// wire on the lists feeds anything.
pub proof fn lemma_step_order_free(a: State, b: State)
    requires
        linked(a.circuit),
        a.circuit == b.circuit,
        a.tick == b.tick,
        same_members(a.updatable, b.updatable),
        steady(a, 1),
        steady(b, 1),
    ensures
        a.stepped().circuit == b.stepped().circuit,
        a.stepped().tick == b.stepped().tick,
        same_members(a.stepped().updatable, b.stepped().updatable),
        linked(a.stepped().circuit),
{
    lemma_stepped(a);
    lemma_stepped(b);
    let x = a.stepped();
    let y = b.stepped();
    assert forall|n: u32| a.circuit.nodes.contains_key(n) implies ticked(a, n) == ticked(
        b,
        n,
    ) by {}
    assert(x.circuit.nodes =~= y.circuit.nodes) by {
        assert forall|n: u32| x.circuit.nodes.contains_key(n) implies x.circuit.nodes[n]
            == y.circuit.nodes[n] by {
            assert(a.circuit.nodes.contains_key(n));
        }
    }
    assert forall|m: u32| woken(a, m) <==> woken(b, m) by {
        if woken(a, m) {
            let n = choose|n: u32|
                a.updatable.contains(n) && a.circuit.nodes.contains_key(n) && #[trigger] refreshed(
                    a.circuit,
                    n,
                ).awaits_commit() && (m == n || (refreshed(a.circuit, n).fires(a.tick)
                    && a.circuit.successors(n).contains(m)));
            assert(b.updatable.contains(n) && refreshed(b.circuit, n).awaits_commit());
        }
        if woken(b, m) {
            let n = choose|n: u32|
                b.updatable.contains(n) && b.circuit.nodes.contains_key(n) && #[trigger] refreshed(
                    b.circuit,
                    n,
                ).awaits_commit() && (m == n || (refreshed(b.circuit, n).fires(b.tick)
                    && b.circuit.successors(n).contains(m)));
            assert(a.updatable.contains(n) && refreshed(a.circuit, n).awaits_commit());
        }
    }
    assert forall|m: u32| x.updatable.contains(m) <==> y.updatable.contains(m) by {
        assert(x.updatable.contains(m) <==> woken(a, m));
        assert(y.updatable.contains(m) <==> woken(b, m));
    }
}

/// The circuit after `n` ticks depends on the circuit, the number of
/// the tick and the members of the work list alone, not on the order of
/// the list, as long as no wire on the lists feeds anything.
pub proof fn lemma_steps_order_free(a: State, b: State, n: nat)
    requires
        linked(a.circuit),
        a.circuit == b.circuit,
        a.tick == b.tick,
        same_members(a.updatable, b.updatable),
        steady(a, n),
        steady(b, n),
    ensures
        a.after(n).circuit == b.after(n).circuit,
        a.after(n).tick == b.after(n).tick,
        same_members(a.after(n).updatable, b.after(n).updatable),
    decreases n,
{
    if n > 0 {
        assert(steady(a, 1)) by {
            assert(steady(a.stepped(), 0));
        }
        assert(steady(b, 1)) by {
            assert(steady(b.stepped(), 0));
        }
        lemma_step_order_free(a, b);
        lemma_steps_order_free(a.stepped(), b.stepped(), (n - 1) as nat);
    }
}

/// In a tame circuit a calm work list is followed by a calm one: the
/// nodes that wait for the end of the tick are no wire, and the nodes
/// that are fed by something are quiet.
pub proof fn lemma_tame_stays_calm(s: State)
    requires
        linked(s.circuit),
        tame(s.circuit),
        s.updatable.len() <= usize::MAX,
        calm(s.circuit, s.updatable),
    ensures
        linked(s.stepped().circuit),
        tame(s.stepped().circuit),
        calm(s.stepped().circuit, s.stepped().updatable),
{
    lemma_stepped(s);
    let c = s.circuit;
    let d = s.stepped().circuit;
    assert forall|n: u32| #[trigger] c.nodes.contains_key(n) implies same_kind(
        c.nodes[n],
        d.nodes[n],
    ) by {
        lemma_tick_keeps_kind(c.nodes[n], c.rear_input(n), c.side_input(n), s.tick);
        lemma_tick_keeps_kind(refreshed(c, n), 0, 0, s.tick);
    }
    assert forall|n: u32| c.nodes.contains_key(n) implies quiet(d, n) == quiet(c, n) by {
        assert(same_kind(c.nodes[n], d.nodes[n]));
    }
    assert forall|n: u32, e: u32|
        #![trigger d.nodes[n], d.edges[e]]
        d.nodes.contains_key(n) && d.edges.contains_key(e) && d.edges[e].target
            == n implies quiet(d, n) by {
        assert(c.nodes.contains_key(n));
        assert(quiet(c, n)) by {
            let _ = c.nodes[n];
            let _ = c.edges[e];
        }
    }
    let list = s.stepped().updatable;
    assert forall|i: int|
        0 <= i < list.len() && d.nodes.contains_key(#[trigger] list[i]) implies quiet(
        d,
        list[i],
    ) by {
        let m = list[i];
        assert(list.contains(m));
        assert(woken(s, m));
        let n = choose|n: u32|
            s.updatable.contains(n) && c.nodes.contains_key(n) && #[trigger] refreshed(
                c,
                n,
            ).awaits_commit() && (m == n || (refreshed(c, n).fires(s.tick) && c.successors(
                n,
            ).contains(m)));
        assert(c.nodes.contains_key(m));
        if m == n {
            lemma_update_idempotent(c.nodes[n], c.rear_input(n), c.side_input(n));
            lemma_tick_keeps_kind(c.nodes[n], c.rear_input(n), c.side_input(n), s.tick);
            assert(!(c.nodes[n] is Redstone));
        } else {
            lemma_successors(c, n);
            let e = choose|e: u32|
                c.edges.contains_key(e) && c.edges[e].source == n && c.edges[e].target == m;
            let _ = c.nodes[m];
            let _ = c.edges[e];
            assert(quiet(c, m));
        }
    }
}

} // verus!
