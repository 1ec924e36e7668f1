//! Siblings that do the same work: what it means for a node to have
//! none left among the nodes that it alone feeds, and why merging the
//! nodes of a group gets there.

use crate::blocks::Block;
use crate::determinism::linked;
use crate::graph::{Circuit, Link};
use crate::merge::{
    alike, echoes, echoes_gone, holds_link, keyed, mergeable, offered, offered_as, only_child,
};
use vstd::prelude::*;

verus! {

/// Whether no two of the nodes that `p` feeds and nothing else does do
/// the same work.
pub open spec fn settled(c: Circuit, p: u32) -> bool {
    forall|a: u32, b: u32|
        #![trigger only_child(c.edges, p, a), only_child(c.edges, p, b)]
        a != b && only_child(c.edges, p, a) && only_child(c.edges, p, b) ==> !alike(
            c.nodes[a],
            c.nodes[b],
        )
}

/// Whether every repeater and torch of the circuit is settled or waits
/// on the list to be looked at.
pub open spec fn watched(c: Circuit, todo: Seq<u32>) -> bool {
    forall|p: u32| #[trigger] mergeable(c.nodes, p) ==> todo.contains(p) || settled(c, p)
}

/// Whether a block belongs to a group whose key is below `key`.
pub open spec fn key_below(b: Block, key: u8) -> bool {
    match b {
        Block::Torch(_) => 0 < key,
        Block::Repeater(v) => v.delay < key,
        _ => false,
    }
}

/// Whether no two of the nodes that `p` feeds and nothing else does do
/// the same work and belong to a group whose key is below `key`.
pub open spec fn clear_below(c: Circuit, p: u32, key: u8) -> bool {
    forall|a: u32, b: u32|
        #![trigger only_child(c.edges, p, a), only_child(c.edges, p, b)]
        a != b && only_child(c.edges, p, a) && only_child(c.edges, p, b) && alike(
            c.nodes[a],
            c.nodes[b],
        ) ==> !key_below(c.nodes[a], key)
}

/// Whether `after` is `before` with the nodes of `group` merged into
/// `first`: each of the others that is a repeater or a torch has left,
/// the edges between nodes that stay have stayed, and the edges that
/// started at a node that left and ended at one that stays start at
/// `first` instead.
pub open spec fn merged(before: Circuit, after: Circuit, first: u32, group: Seq<u32>) -> bool {
    &&& forall|n: u32| #[trigger]
        after.nodes.contains_key(n) ==> before.nodes.contains_key(n) && after.nodes[n]
            == before.nodes[n]
    &&& forall|n: u32|
        before.nodes.contains_key(n) ==> (#[trigger] after.nodes.contains_key(n) <==> !(
        before.nodes.contains_key(first) && n != first && group.contains(n) && mergeable(
            before.nodes,
            n,
        )))
    &&& forall|e: u32| #[trigger]
        before.edges.contains_key(e) && after.nodes.contains_key(before.edges[e].source)
            && after.nodes.contains_key(before.edges[e].target) ==> after.edges.contains_key(e)
            && after.edges[e] == before.edges[e]
    &&& forall|e: u32| #[trigger]
        after.edges.contains_key(e) ==> (before.edges.contains_key(e) && after.edges[e]
            == before.edges[e]) || (after.edges[e].source == first && echoes_gone(
            before.edges,
            after.nodes,
            after.edges[e],
        ))
    &&& forall|e: u32| #[trigger]
        before.edges.contains_key(e) && !after.nodes.contains_key(before.edges[e].source)
            && after.nodes.contains_key(before.edges[e].target) ==> holds_link(
            after.edges,
            (Link {
                source: first,
                target: before.edges[e].target,
                weight: before.edges[e].weight,
            }),
        )
}

/// What a round of merging the nodes that `idx` alone feeds has got to
/// when the groups of the keys below `key` are done: every other
/// repeater and torch is settled or on the list; `idx` has no two such
/// nodes left in those groups; the candidates hold each such node that
/// can merge; and the candidates of the groups to come are still nodes
/// of the circuit. The last three need not hold once `idx` is on the
/// list again.
pub open spec fn round(
    c: Circuit,
    todo: Seq<u32>,
    candidates: Seq<(u8, u32)>,
    idx: u32,
    key: u8,
) -> bool {
    &&& forall|p: u32| #[trigger]
        mergeable(c.nodes, p) ==> p == idx || todo.contains(p) || settled(c, p)
    &&& todo.contains(idx) || clear_below(c, idx, key)
    &&& todo.contains(idx) || forall|n: u32|
        mergeable(c.nodes, n) && #[trigger] only_child(c.edges, idx, n) ==> offered(candidates, n)
    &&& forall|i: int|
        0 <= i < candidates.len() && (#[trigger] candidates[i]).0 >= key
            ==> c.nodes.contains_key(candidates[i].1)
    &&& forall|i: int|
        0 <= i < candidates.len() && c.nodes.contains_key((#[trigger] candidates[i]).1) ==> keyed(
            c.nodes[candidates[i].1],
            candidates[i].0,
        )
}

/// Whether each edge of `old` between two nodes that are nodes of `c`
/// is an edge of `c`, as it was.
pub open spec fn edges_kept(old: Circuit, c: Circuit) -> bool {
    forall|e: u32| #[trigger]
        old.edges.contains_key(e) && c.nodes.contains_key(old.edges[e].source)
            && c.nodes.contains_key(old.edges[e].target) ==> c.edges.contains_key(e)
            && c.edges[e] == old.edges[e]
}

/// Whether node `k` of `c` has, for each edge of `old` that started at
/// `n` and ended at a node of `c`, an edge of `c` to that node with
/// that weight.
pub open spec fn carries(old: Circuit, c: Circuit, n: u32, k: u32) -> bool {
    forall|e: u32| #[trigger]
        old.edges.contains_key(e) && old.edges[e].source == n && c.nodes.contains_key(
            old.edges[e].target,
        ) ==> holds_link(
            c.edges,
            (Link { source: k, target: old.edges[e].target, weight: old.edges[e].weight }),
        )
}

/// Whether a node of `c` has taken over from node `n` of `old`: it does
/// the same work, and it has the edges that started at `n` and ended
/// at a node that is still there.
pub open spec fn taken_over(old: Circuit, c: Circuit, n: u32) -> bool {
    exists|k: u32|
        #[trigger] c.nodes.contains_key(k) && old.nodes.contains_key(k) && alike(
            old.nodes[n],
            old.nodes[k],
        ) && carries(old, c, n, k)
}

/// Whether a node of `c` has taken over from each node of `old` that is
/// no node of `c`.
pub open spec fn all_taken_over(old: Circuit, c: Circuit) -> bool {
    forall|n: u32|
        old.nodes.contains_key(n) && !(#[trigger] c.nodes.contains_key(n)) ==> taken_over(
            old,
            c,
            n,
        )
}

/// A merge keeps the edges between nodes that stay, and lets the first
/// node of the group take over from the nodes that leave, and from
/// those that they had taken over from.
pub proof fn lemma_taken_over(
    old: Circuit,
    cur: Circuit,
    now: Circuit,
    first: u32,
    group: Seq<u32>,
    key: u8,
)
    requires
        old.wf(),
        merged(cur, now, first, group),
        forall|n: u32| #[trigger]
            cur.nodes.contains_key(n) ==> old.nodes.contains_key(n) && cur.nodes[n]
                == old.nodes[n],
        edges_kept(old, cur),
        all_taken_over(old, cur),
        group.len() >= 1,
        first == group[0],
        forall|g: int|
            0 <= g < group.len() ==> old.nodes.contains_key(#[trigger] group[g]) && keyed(
                old.nodes[group[g]],
                key,
            ),
    ensures
        edges_kept(old, now),
        all_taken_over(old, now),
{
    assert forall|e: u32| #[trigger]
        old.edges.contains_key(e) && now.nodes.contains_key(old.edges[e].source)
            && now.nodes.contains_key(old.edges[e].target) implies now.edges.contains_key(e)
        && now.edges[e] == old.edges[e] by {
        assert(cur.nodes.contains_key(old.edges[e].source));
        assert(cur.nodes.contains_key(old.edges[e].target));
        assert(cur.edges.contains_key(e) && cur.edges[e] == old.edges[e]);
    }
    assert(keyed(old.nodes[group[0]], key));
    assert(old.nodes[first].wf());
    assert forall|n: u32|
        old.nodes.contains_key(n) && !(#[trigger] now.nodes.contains_key(n)) implies taken_over(
        old,
        now,
        n,
    ) by {
        if cur.nodes.contains_key(n) {
            assert(cur.nodes.contains_key(first) && n != first && group.contains(n));
            assert(now.nodes.contains_key(first));
            let g = choose|g: int| 0 <= g < group.len() && group[g] == n;
            assert(keyed(old.nodes[group[g]], key));
            assert(old.nodes[n].wf());
            assert(alike(old.nodes[n], old.nodes[first]));
            assert forall|e: u32| #[trigger]
                old.edges.contains_key(e) && old.edges[e].source == n && now.nodes.contains_key(
                    old.edges[e].target,
                ) implies holds_link(
                now.edges,
                (Link { source: first, target: old.edges[e].target, weight: old.edges[e].weight }),
            ) by {
                assert(cur.nodes.contains_key(old.edges[e].target));
                assert(cur.edges.contains_key(e) && cur.edges[e] == old.edges[e]);
            }
            assert(carries(old, now, n, first));
        } else {
            assert(taken_over(old, cur, n));
            let k = choose|k: u32|
                #[trigger] cur.nodes.contains_key(k) && old.nodes.contains_key(k) && alike(
                    old.nodes[n],
                    old.nodes[k],
                ) && carries(old, cur, n, k);
            if now.nodes.contains_key(k) {
                assert forall|e: u32| #[trigger]
                    old.edges.contains_key(e) && old.edges[e].source == n
                        && now.nodes.contains_key(old.edges[e].target) implies holds_link(
                    now.edges,
                    (Link { source: k, target: old.edges[e].target, weight: old.edges[e].weight }),
                ) by {
                    let l = Link {
                        source: k,
                        target: old.edges[e].target,
                        weight: old.edges[e].weight,
                    };
                    assert(cur.nodes.contains_key(old.edges[e].target));
                    assert(holds_link(cur.edges, l));
                    let f = choose|f: u32| cur.edges.contains_key(f) && cur.edges[f] == l;
                    assert(now.edges.contains_key(f) && now.edges[f] == l);
                }
                assert(carries(old, now, n, k));
            } else {
                assert(cur.nodes.contains_key(first) && k != first && group.contains(k));
                assert(now.nodes.contains_key(first));
                let g = choose|g: int| 0 <= g < group.len() && group[g] == k;
                assert(keyed(old.nodes[group[g]], key));
                assert(old.nodes[k].wf());
                assert(alike(old.nodes[k], old.nodes[first]));
                assert(alike(old.nodes[n], old.nodes[first]));
                assert forall|e: u32| #[trigger]
                    old.edges.contains_key(e) && old.edges[e].source == n
                        && now.nodes.contains_key(old.edges[e].target) implies holds_link(
                    now.edges,
                    (Link {
                        source: first,
                        target: old.edges[e].target,
                        weight: old.edges[e].weight,
                    }),
                ) by {
                    let l = Link {
                        source: k,
                        target: old.edges[e].target,
                        weight: old.edges[e].weight,
                    };
                    assert(cur.nodes.contains_key(old.edges[e].target));
                    assert(holds_link(cur.edges, l));
                    let f = choose|f: u32| cur.edges.contains_key(f) && cur.edges[f] == l;
                    assert(cur.edges.contains_key(f));
                    assert(cur.edges[f].source == k);
                }
                assert(carries(old, now, n, first));
            }
        }
    }
}

/// Whether `c` is a stage of the merging that starts at `old`: its
/// nodes are nodes of `old`, with their blocks; the edges of `old`
/// between them are edges of `c`; and each edge of `c` has the target
/// and the weight of an edge of `old`.
pub open spec fn stage(old: Circuit, c: Circuit) -> bool {
    &&& forall|n: u32| #[trigger]
        c.nodes.contains_key(n) ==> old.nodes.contains_key(n) && c.nodes[n] == old.nodes[n]
    &&& edges_kept(old, c)
    &&& forall|e: u32| #[trigger] c.edges.contains_key(e) ==> echoes(old.edges, c.edges[e])
}

/// Whether `n` and `f` are siblings in `c` that do the same work: two
/// nodes that `p` feeds and nothing else does, and that are alike.
pub open spec fn siblings_at(c: Circuit, p: u32, n: u32, f: u32) -> bool {
    &&& f != n
    &&& c.nodes.contains_key(n)
    &&& c.nodes.contains_key(f)
    &&& only_child(c.edges, p, n)
    &&& only_child(c.edges, p, f)
    &&& alike(c.nodes[n], c.nodes[f])
}

/// Whether node `n` was, at a stage of the merging that starts at
/// `old`, the sibling of a node that does the same work.
pub open spec fn was_sibling(old: Circuit, n: u32) -> bool {
    exists|c: Circuit, p: u32, f: u32| stage(old, c) && #[trigger] siblings_at(c, p, n, f)
}

/// Whether each node of `old` that is no node of `c` was the sibling of
/// a node that does the same work when it left.
pub open spec fn all_were_siblings(old: Circuit, c: Circuit) -> bool {
    forall|n: u32|
        old.nodes.contains_key(n) && !(#[trigger] c.nodes.contains_key(n)) ==> was_sibling(
            old,
            n,
        )
}

/// The nodes that a merge of a group of candidates removes were
/// siblings of the first node of the group when the candidates were
/// chosen.
pub proof fn lemma_were_siblings(
    old: Circuit,
    round: Circuit,
    cur: Circuit,
    now: Circuit,
    first: u32,
    group: Seq<u32>,
    key: u8,
    candidates: Seq<(u8, u32)>,
    idx: u32,
)
    requires
        round.wf(),
        stage(old, round),
        all_were_siblings(old, cur),
        merged(cur, now, first, group),
        group.len() >= 1,
        first == group[0],
        forall|g: int| 0 <= g < group.len() ==> offered_as(candidates, key, #[trigger] group[g]),
        forall|k: int|
            0 <= k < candidates.len() ==> {
                &&& round.nodes.contains_key((#[trigger] candidates[k]).1)
                &&& keyed(round.nodes[candidates[k].1], candidates[k].0)
                &&& only_child(round.edges, idx, candidates[k].1)
            },
    ensures
        all_were_siblings(old, now),
{
    assert forall|n: u32|
        old.nodes.contains_key(n) && !(#[trigger] now.nodes.contains_key(n)) implies was_sibling(
        old,
        n,
    ) by {
        if cur.nodes.contains_key(n) {
            assert(n != first && group.contains(n));
            let g = choose|g: int| 0 <= g < group.len() && group[g] == n;
            assert(offered_as(candidates, key, group[g]));
            assert(offered_as(candidates, key, group[0]));
            let a = choose|a: int|
                0 <= a < candidates.len() && candidates[a].1 == n && candidates[a].0 == key;
            let b = choose|b: int|
                0 <= b < candidates.len() && candidates[b].1 == first && candidates[b].0 == key;
            assert(keyed(round.nodes[candidates[a].1], candidates[a].0));
            assert(keyed(round.nodes[candidates[b].1], candidates[b].0));
            assert(round.nodes[n].wf() && round.nodes[first].wf());
            assert(alike(round.nodes[n], round.nodes[first]));
            assert(siblings_at(round, idx, n, first));
        }
    }
}

/// A block belongs to the group of one key.
pub proof fn lemma_one_key(b: Block, j: u8, k: u8)
    requires
        keyed(b, j),
        keyed(b, k),
    ensures
        j == k,
        b is Repeater || b is Torch,
{
}

/// A node that a node other than `first` alone feeds after a merge was
/// fed by that node alone before.
pub proof fn lemma_child_before(
    before: Circuit,
    after: Circuit,
    first: u32,
    group: Seq<u32>,
    p: u32,
    x: u32,
)
    requires
        merged(before, after, first, group),
        linked(before),
        linked(after),
        p != first,
        only_child(after.edges, p, x),
    ensures
        only_child(before.edges, p, x),
        after.nodes.contains_key(x),
        before.nodes.contains_key(x),
        after.nodes[x] == before.nodes[x],
{
    let e = choose|e: u32|
        after.edges.contains_key(e) && after.edges[e].source == p && after.edges[e].target == x;
    assert(after.edges.contains_key(e));
    assert(before.edges.contains_key(e) && after.edges[e] == before.edges[e]);
    assert(after.nodes.contains_key(x));
    assert forall|a: u32|
        before.edges.contains_key(a) && before.edges[a].target == x implies a == e by {
        let s = before.edges[a].source;
        assert(before.nodes.contains_key(s));
        if after.nodes.contains_key(s) {
            assert(after.edges.contains_key(a) && after.edges[a] == before.edges[a]);
        } else {
            let l = Link { source: first, target: x, weight: before.edges[a].weight };
            assert(holds_link(after.edges, l));
            let f = choose|f: u32| after.edges.contains_key(f) && after.edges[f] == l;
            assert(after.edges[f].target == x);
            assert(f == e);
        }
    }
    assert forall|a: u32, b: u32|
        before.edges.contains_key(a) && before.edges.contains_key(b) && before.edges[a].target
            == x && before.edges[b].target == x implies a == b by {
        assert(a == e && b == e);
    }
}

/// A merge leaves every node but `first` settled that was so before.
pub proof fn lemma_settled_kept(
    before: Circuit,
    after: Circuit,
    first: u32,
    group: Seq<u32>,
    p: u32,
)
    requires
        merged(before, after, first, group),
        linked(before),
        linked(after),
        p != first,
        settled(before, p),
    ensures
        settled(after, p),
{
    assert forall|a: u32, b: u32|
        #![trigger only_child(after.edges, p, a), only_child(after.edges, p, b)]
        a != b && only_child(after.edges, p, a) && only_child(after.edges, p, b) implies !alike(
        after.nodes[a],
        after.nodes[b],
    ) by {
        lemma_child_before(before, after, first, group, p, a);
        lemma_child_before(before, after, first, group, p, b);
        assert(only_child(before.edges, p, a) && only_child(before.edges, p, b));
    }
}

/// A merge after which no node has left has changed nothing.
pub proof fn lemma_nothing_merged(before: Circuit, after: Circuit, first: u32, group: Seq<u32>)
    requires
        merged(before, after, first, group),
        linked(before),
        after.nodes.dom() =~= before.nodes.dom(),
    ensures
        after == before,
{
    assert(after.nodes =~= before.nodes);
    assert forall|e: u32| after.edges.contains_key(e) implies before.edges.contains_key(e)
        && after.edges[e] == before.edges[e] by {
        if !(before.edges.contains_key(e) && after.edges[e] == before.edges[e]) {
            let l = after.edges[e];
            assert(echoes_gone(before.edges, after.nodes, l));
            let g = choose|g: u32|
                before.edges.contains_key(g) && !after.nodes.contains_key(before.edges[g].source)
                    && before.edges[g].target == l.target && before.edges[g].weight == l.weight;
            assert(before.nodes.contains_key(before.edges[g].source));
        }
    }
    assert forall|e: u32| before.edges.contains_key(e) implies after.edges.contains_key(e) by {
        assert(before.nodes.contains_key(before.edges[e].source));
        assert(before.nodes.contains_key(before.edges[e].target));
        assert(after.nodes.contains_key(before.edges[e].source));
        assert(after.nodes.contains_key(before.edges[e].target));
    }
    assert(after.edges =~= before.edges);
}

/// A round starts with the node taken off the list.
pub proof fn lemma_round_start(
    c: Circuit,
    todo: Seq<u32>,
    rest: Seq<u32>,
    candidates: Seq<(u8, u32)>,
    idx: u32,
)
    requires
        watched(c, todo),
        todo.len() > 0,
        idx == todo.last(),
        rest == todo.drop_last(),
        forall|i: int|
            0 <= i < candidates.len() ==> c.nodes.contains_key((#[trigger] candidates[i]).1)
                && keyed(c.nodes[candidates[i].1], candidates[i].0),
        forall|n: u32|
            mergeable(c.nodes, n) && only_child(c.edges, idx, n) ==> offered(candidates, n),
    ensures
        round(c, rest, candidates, idx, 0),
{
    assert forall|p: u32| #[trigger] mergeable(c.nodes, p) implies p == idx || rest.contains(p)
        || settled(c, p) by {
        if todo.contains(p) && p != idx {
            let i = choose|i: int| 0 <= i < todo.len() && todo[i] == p;
            assert(i < todo.len() - 1);
            assert(rest[i] == p);
        }
    }
}

/// A round that has done all groups leaves its node settled.
pub proof fn lemma_round_end(c: Circuit, todo: Seq<u32>, candidates: Seq<(u8, u32)>, idx: u32)
    requires
        c.wf(),
        round(c, todo, candidates, idx, 5),
    ensures
        watched(c, todo),
{
    assert forall|p: u32| #[trigger] mergeable(c.nodes, p) implies todo.contains(p) || settled(
        c,
        p,
    ) by {
        if p == idx && !todo.contains(idx) {
            assert forall|a: u32, b: u32|
                #![trigger only_child(c.edges, p, a), only_child(c.edges, p, b)]
                a != b && only_child(c.edges, p, a) && only_child(c.edges, p, b) implies !alike(
                c.nodes[a],
                c.nodes[b],
            ) by {
                if alike(c.nodes[a], c.nodes[b]) {
                    let e = choose|e: u32|
                        c.edges.contains_key(e) && c.edges[e].source == p && c.edges[e].target
                            == a;
                    assert(c.edges.contains_key(e));
                    assert(c.nodes.contains_key(a));
                    assert(c.nodes[a].wf());
                    assert(key_below(c.nodes[a], 5));
                }
            }
        }
    }
}

/// A group of one node at most needs no merge.
pub proof fn lemma_round_skip(
    c: Circuit,
    todo: Seq<u32>,
    candidates: Seq<(u8, u32)>,
    idx: u32,
    key: u8,
    group: Seq<u32>,
)
    requires
        linked(c),
        key <= 4,
        round(c, todo, candidates, idx, key),
        group.len() <= 1,
        forall|i: int|
            0 <= i < candidates.len() && (#[trigger] candidates[i]).0 == key ==> group.contains(
                candidates[i].1,
            ),
    ensures
        round(c, todo, candidates, idx, (key + 1) as u8),
{
    if !todo.contains(idx) {
        assert forall|a: u32, b: u32|
            #![trigger only_child(c.edges, idx, a), only_child(c.edges, idx, b)]
            a != b && only_child(c.edges, idx, a) && only_child(c.edges, idx, b) && alike(
                c.nodes[a],
                c.nodes[b],
            ) implies !key_below(c.nodes[a], (key + 1) as u8) by {
            if key_below(c.nodes[a], (key + 1) as u8) {
                assert(!key_below(c.nodes[a], key));
                assert(keyed(c.nodes[a], key) && keyed(c.nodes[b], key));
                lemma_in_group(c, candidates, idx, key, group, a);
                lemma_in_group(c, candidates, idx, key, group, b);
                let i = choose|i: int| 0 <= i < group.len() && group[i] == a;
                let j = choose|j: int| 0 <= j < group.len() && group[j] == b;
                assert(i != j);
            }
        }
    }
}

/// A node of the group of key `key` that `idx` alone feeds is in the
/// group made of the candidates of that key.
pub proof fn lemma_in_group(
    c: Circuit,
    candidates: Seq<(u8, u32)>,
    idx: u32,
    key: u8,
    group: Seq<u32>,
    a: u32,
)
    requires
        linked(c),
        only_child(c.edges, idx, a),
        keyed(c.nodes[a], key),
        forall|n: u32|
            mergeable(c.nodes, n) && #[trigger] only_child(c.edges, idx, n) ==> offered(
                candidates,
                n,
            ),
        forall|i: int|
            0 <= i < candidates.len() && c.nodes.contains_key((#[trigger] candidates[i]).1)
                ==> keyed(c.nodes[candidates[i].1], candidates[i].0),
        forall|i: int|
            0 <= i < candidates.len() && (#[trigger] candidates[i]).0 == key ==> group.contains(
                candidates[i].1,
            ),
    ensures
        group.contains(a),
        c.nodes.contains_key(a),
        mergeable(c.nodes, a),
{
    let e = choose|e: u32|
        c.edges.contains_key(e) && c.edges[e].source == idx && c.edges[e].target == a;
    assert(c.edges.contains_key(e));
    assert(c.nodes.contains_key(a));
    lemma_one_key(c.nodes[a], key, key);
    assert(mergeable(c.nodes, a));
    assert(offered(candidates, a));
    let i = choose|i: int| 0 <= i < candidates.len() && candidates[i].1 == a;
    assert(keyed(c.nodes[candidates[i].1], candidates[i].0));
    lemma_one_key(c.nodes[a], key, candidates[i].0);
}

/// Merging the group of key `key` takes the round one key further. The
/// first node of the group has to be on the list afterwards, unless no
/// node has left.
pub proof fn lemma_round_merge(
    cur: Circuit,
    now: Circuit,
    todo: Seq<u32>,
    after: Seq<u32>,
    candidates: Seq<(u8, u32)>,
    idx: u32,
    key: u8,
    group: Seq<u32>,
    first: u32,
)
    requires
        linked(cur),
        linked(now),
        key <= 4,
        round(cur, todo, candidates, idx, key),
        merged(cur, now, first, group),
        group.len() >= 1,
        first == group[0],
        forall|g: int|
            0 <= g < group.len() ==> offered_as(candidates, key, #[trigger] group[g]),
        forall|i: int|
            0 <= i < candidates.len() && (#[trigger] candidates[i]).0 == key ==> group.contains(
                candidates[i].1,
            ),
        (after == todo && now.nodes.dom() =~= cur.nodes.dom()) || after == todo.push(first),
    ensures
        round(now, after, candidates, idx, (key + 1) as u8),
{
    let next = (key + 1) as u8;
    if after == todo && now.nodes.dom() =~= cur.nodes.dom() {
        lemma_nothing_merged(cur, now, first, group);
    }
    assert forall|p: u32| todo.contains(p) implies after.contains(p) by {
        if after != todo {
            let i = choose|i: int| 0 <= i < todo.len() && todo[i] == p;
            assert(after[i] == p);
        }
    }
    if after != todo || !(now.nodes.dom() =~= cur.nodes.dom()) {
        assert(after == todo.push(first));
        assert(after[after.len() - 1] == first);
        assert(after.contains(first));
    }
    // the first node of the group is a node of the circuit
    assert(offered_as(candidates, key, group[0]));
    let i0 = choose|i: int|
        0 <= i < candidates.len() && candidates[i].1 == group[0] && candidates[i].0 == key;
    assert(candidates[i0].0 >= key);
    assert(cur.nodes.contains_key(first));
    // every other repeater and torch is settled or on the list
    assert forall|p: u32| #[trigger] mergeable(now.nodes, p) implies p == idx || after.contains(p)
        || settled(now, p) by {
        assert(now.nodes.contains_key(p));
        assert(mergeable(cur.nodes, p));
        if p != idx && !after.contains(p) {
            assert(!todo.contains(p));
            assert(settled(cur, p));
            if p == first {
                assert(now == cur);
            } else {
                lemma_settled_kept(cur, now, first, group, p);
            }
        }
    }
    // the candidates of the groups to come are still nodes
    assert forall|i: int|
        0 <= i < candidates.len() && (#[trigger] candidates[i]).0 >= next
            implies now.nodes.contains_key(candidates[i].1) by {
        let n = candidates[i].1;
        assert(candidates[i].0 >= key);
        assert(cur.nodes.contains_key(n));
        if !now.nodes.contains_key(n) {
            assert(group.contains(n));
            let g = choose|g: int| 0 <= g < group.len() && group[g] == n;
            assert(offered_as(candidates, key, group[g]));
            let j = choose|j: int|
                0 <= j < candidates.len() && candidates[j].1 == group[g] && candidates[j].0
                    == key;
            assert(keyed(cur.nodes[candidates[j].1], candidates[j].0));
            assert(keyed(cur.nodes[candidates[i].1], candidates[i].0));
            lemma_one_key(cur.nodes[n], key, candidates[i].0);
        }
    }
    assert forall|i: int|
        0 <= i < candidates.len() && now.nodes.contains_key(
            (#[trigger] candidates[i]).1,
        ) implies keyed(now.nodes[candidates[i].1], candidates[i].0) by {
        assert(cur.nodes.contains_key(candidates[i].1));
    }
    if !after.contains(idx) {
        assert(!todo.contains(idx));
        if now == cur {
        } else {
            assert(idx != first);
        }
        // what `idx` alone feeds now, it alone fed before
        assert forall|n: u32|
            mergeable(now.nodes, n) && #[trigger] only_child(now.edges, idx, n) implies offered(
            candidates,
            n,
        ) by {
            if now != cur {
                lemma_child_before(cur, now, first, group, idx, n);
            }
            assert(mergeable(cur.nodes, n));
            assert(only_child(cur.edges, idx, n));
        }
        assert forall|a: u32, b: u32|
            #![trigger only_child(now.edges, idx, a), only_child(now.edges, idx, b)]
            a != b && only_child(now.edges, idx, a) && only_child(now.edges, idx, b) && alike(
                now.nodes[a],
                now.nodes[b],
            ) implies !key_below(now.nodes[a], next) by {
            if now != cur {
                lemma_child_before(cur, now, first, group, idx, a);
                lemma_child_before(cur, now, first, group, idx, b);
            }
            assert(only_child(cur.edges, idx, a) && only_child(cur.edges, idx, b));
            let ea = choose|e: u32|
                now.edges.contains_key(e) && now.edges[e].source == idx && now.edges[e].target
                    == a;
            let eb = choose|e: u32|
                now.edges.contains_key(e) && now.edges[e].source == idx && now.edges[e].target
                    == b;
            assert(now.edges.contains_key(ea) && now.edges.contains_key(eb));
            assert(now.nodes.contains_key(a) && now.nodes.contains_key(b));
            assert(now.nodes[a] == cur.nodes[a] && now.nodes[b] == cur.nodes[b]);
            assert(alike(cur.nodes[a], cur.nodes[b]));
            assert(!key_below(cur.nodes[a], key));
            if key_below(now.nodes[a], next) {
                assert(keyed(cur.nodes[a], key) && keyed(cur.nodes[b], key));
                lemma_in_group(cur, candidates, idx, key, group, a);
                lemma_in_group(cur, candidates, idx, key, group, b);
                if a != first {
                    assert(!now.nodes.contains_key(a));
                } else {
                    assert(!now.nodes.contains_key(b));
                }
            }
        }
    }
}

} // verus!
