use redstone_simulator::blocks::redstone::Redstone;
use redstone_simulator::blocks::repeater::Repeater;
use redstone_simulator::blocks::torch::Torch;
use redstone_simulator::blocks::{redstone_max, redstone_min, Block};
use redstone_simulator::edge::Edge;
use redstone_simulator::graph::Link;
use redstone_simulator::world::World;

fn repeater(delay: u8) -> Block {
    Block::Repeater(Repeater::new(delay, false, false))
}

fn torch() -> Block {
    Block::Torch(Torch::with_lit(true))
}

fn links(w: &World) -> Vec<(u32, u32, Edge)> {
    let mut all: Vec<(u32, u32, bool, u8)> = w
        .edge_ids()
        .into_iter()
        .map(|e| w.edge(e).unwrap())
        .map(|l| (l.source, l.target, l.weight.is_side(), l.weight.strength_loss()))
        .collect();
    all.sort();
    all.into_iter()
        .map(|(s, t, side, loss)| (s, t, if side { Edge::Side(loss) } else { Edge::Rear(loss) }))
        .collect()
}

#[test]
fn too_long_edges_go() {
    let mut w = World::new();
    let a = w.add_block(redstone_max()).unwrap();
    let b = w.add_block(repeater(1)).unwrap();
    let short = w.connect(a, b, Edge::Rear(14)).unwrap();
    let long = w.connect(a, b, Edge::Rear(15)).unwrap();
    let side = w.connect(a, b, Edge::Side(15)).unwrap();
    let zero = w.connect(a, b, Edge::Side(0)).unwrap();
    w.prune_too_long_edges();
    assert_eq!(w.edge_ids(), vec![short, zero]);
    assert_eq!(w.edge(long), None);
    assert_eq!(w.edge(side), None);
    assert_eq!(w.node_count(), 2);
}

#[test]
fn of_parallel_edges_the_best_stays() {
    let mut w = World::new();
    let a = w.add_block(redstone_max()).unwrap();
    let b = w.add_block(repeater(1)).unwrap();
    let c = w.add_block(repeater(1)).unwrap();
    let e0 = w.connect(a, b, Edge::Rear(3)).unwrap();
    let e1 = w.connect(a, b, Edge::Rear(1)).unwrap();
    let e2 = w.connect(a, b, Edge::Rear(1)).unwrap();
    let e3 = w.connect(a, b, Edge::Side(2)).unwrap();
    let e4 = w.connect(a, b, Edge::Side(2)).unwrap();
    let e5 = w.connect(a, c, Edge::Rear(9)).unwrap();
    let e6 = w.connect(b, c, Edge::Rear(9)).unwrap();
    let e7 = w.connect(b, c, Edge::Rear(8)).unwrap();
    w.prune_duplicate_edges();
    assert_eq!(w.edge_ids(), vec![e1, e3, e5, e7]);
    for gone in [e0, e2, e4, e6] {
        assert_eq!(w.edge(gone), None);
    }
    assert_eq!(
        w.edge(e1),
        Some(Link {
            source: a,
            target: b,
            weight: Edge::Rear(1)
        })
    );
    w.prune_duplicate_edges();
    assert_eq!(w.edge_ids(), vec![e1, e3, e5, e7]);
}

#[test]
fn dead_nodes_go() {
    let mut w = World::new();
    let lone_repeater = w.add_block(repeater(1)).unwrap();
    let lone_torch = w.add_block(torch()).unwrap();
    let lone_wire = w.add_block(redstone_min()).unwrap();
    let lone_probe = w.add_block(redstone_min()).unwrap();
    let lone_trigger = w.add_block(redstone_min()).unwrap();
    let lone_source = w.add_block(redstone_max()).unwrap();
    let x = w.add_block(repeater(1)).unwrap();
    let y = w.add_block(repeater(1)).unwrap();
    w.connect(x, y, Edge::Rear(0)).unwrap();
    assert!(w.add_probe(lone_probe, "p"));
    assert!(w.add_trigger(lone_trigger, "t"));
    assert!(w.add_constant(lone_source));
    w.prune_dead_nodes();
    assert_eq!(
        w.node_ids(),
        vec![lone_torch, lone_probe, lone_trigger, lone_source, x, y]
    );
    assert_eq!(w.block(lone_repeater), None);
    assert_eq!(w.block(lone_wire), None);
    assert_eq!(w.edge_count(), 1);
}

#[test]
fn wire_becomes_edges() {
    let mut w = World::new();
    let s = w.add_block(repeater(1)).unwrap();
    let w1 = w.add_block(redstone_min()).unwrap();
    let w2 = w.add_block(redstone_min()).unwrap();
    let r = w.add_block(repeater(1)).unwrap();
    let p = w.add_block(redstone_min()).unwrap();
    w.connect(s, w1, Edge::Rear(0)).unwrap();
    w.connect(w1, w2, Edge::Rear(1)).unwrap();
    w.connect(w2, w1, Edge::Rear(1)).unwrap();
    w.connect(w2, r, Edge::Rear(0)).unwrap();
    w.connect(w2, p, Edge::Rear(1)).unwrap();
    assert!(w.add_probe(p, "p"));
    w.prune_redstone().unwrap();
    assert_eq!(w.node_ids(), vec![s, r, p]);
    assert_eq!(
        links(&w),
        vec![(s, r, Edge::Rear(1)), (s, p, Edge::Rear(2))]
    );
}

#[test]
fn a_walk_into_a_side_face_gives_a_side_edge() {
    let mut w = World::new();
    let s = w.add_block(torch()).unwrap();
    let w1 = w.add_block(redstone_min()).unwrap();
    let w2 = w.add_block(redstone_min()).unwrap();
    let r = w.add_block(repeater(2)).unwrap();
    w.connect(s, w1, Edge::Rear(0)).unwrap();
    w.connect(w1, w2, Edge::Rear(1)).unwrap();
    w.connect(w2, r, Edge::Side(0)).unwrap();
    w.connect(w1, r, Edge::Rear(0)).unwrap();
    w.prune_redstone().unwrap();
    assert_eq!(w.node_ids(), vec![s, r]);
    assert_eq!(
        links(&w),
        vec![(s, r, Edge::Rear(0)), (s, r, Edge::Side(1))]
    );
}

#[test]
fn edges_between_components_stay() {
    let mut w = World::new();
    let a = w.add_block(repeater(1)).unwrap();
    let b = w.add_block(torch()).unwrap();
    let direct = w.connect(a, b, Edge::Rear(0)).unwrap();
    w.prune_redstone().unwrap();
    assert_eq!(w.node_ids(), vec![a, b]);
    assert_eq!(
        links(&w),
        vec![(a, b, Edge::Rear(0)), (a, b, Edge::Rear(0))]
    );
    assert_eq!(
        w.edge(direct),
        Some(Link {
            source: a,
            target: b,
            weight: Edge::Rear(0)
        })
    );
    w.prune_duplicate_edges();
    assert_eq!(w.edge_ids(), vec![direct]);
}

#[test]
fn triggers_and_constant_sources_feed_wire() {
    let mut w = World::new();
    let t = w.add_block(redstone_min()).unwrap();
    let c = w.add_block(redstone_max()).unwrap();
    let wire = w.add_block(redstone_min()).unwrap();
    let r = w.add_block(repeater(1)).unwrap();
    w.connect(t, wire, Edge::Rear(0)).unwrap();
    w.connect(c, wire, Edge::Rear(0)).unwrap();
    w.connect(wire, r, Edge::Rear(0)).unwrap();
    assert!(w.add_trigger(t, "t"));
    assert!(w.add_constant(c));
    w.prune_redstone().unwrap();
    assert_eq!(w.node_ids(), vec![t, c, r]);
    assert_eq!(
        links(&w),
        vec![(t, r, Edge::Rear(0)), (c, r, Edge::Rear(0))]
    );
}

#[test]
fn a_long_wire_loses_all_signal() {
    let mut w = World::new();
    let s = w.add_block(torch()).unwrap();
    let mut last = s;
    let mut first = true;
    for _ in 0..17 {
        let next = w.add_block(redstone_min()).unwrap();
        w.connect(last, next, if first { Edge::Rear(0) } else { Edge::Rear(1) })
            .unwrap();
        first = false;
        last = next;
    }
    let r = w.add_block(repeater(1)).unwrap();
    w.connect(last, r, Edge::Rear(0)).unwrap();
    w.prune_redstone().unwrap();
    assert_eq!(links(&w), vec![(s, r, Edge::Rear(15))]);
    w.prune_too_long_edges();
    assert_eq!(w.edge_count(), 0);
}

#[test]
fn merge_nodes_moves_the_edges_to_the_first() {
    let mut w = World::new();
    let a = w.add_block(repeater(1)).unwrap();
    let b = w.add_block(repeater(1)).unwrap();
    let c = w.add_block(torch()).unwrap();
    let d = w.add_block(redstone_min()).unwrap();
    let x = w.add_block(repeater(2)).unwrap();
    let y = w.add_block(repeater(3)).unwrap();
    w.connect(a, x, Edge::Rear(0)).unwrap();
    w.connect(b, x, Edge::Rear(2)).unwrap();
    w.connect(b, y, Edge::Side(0)).unwrap();
    w.connect(c, y, Edge::Rear(1)).unwrap();
    w.connect(b, c, Edge::Rear(0)).unwrap();
    w.connect(b, b, Edge::Rear(0)).unwrap();
    w.connect(x, b, Edge::Rear(0)).unwrap();
    w.connect(d, y, Edge::Rear(4)).unwrap();
    let first = w.merge_nodes(&vec![a, b, c, d, a, 99]);
    assert_eq!(first, a);
    assert_eq!(w.node_ids(), vec![a, d, x, y]);
    assert_eq!(
        links(&w),
        vec![
            (a, x, Edge::Rear(0)),
            (a, x, Edge::Rear(2)),
            (a, y, Edge::Rear(1)),
            (a, y, Edge::Side(0)),
            (d, y, Edge::Rear(4)),
        ]
    );
}

#[test]
fn merge_nodes_does_nothing_without_its_first_node() {
    let mut w = World::new();
    let a = w.add_block(repeater(1)).unwrap();
    let b = w.add_block(repeater(1)).unwrap();
    w.connect(a, b, Edge::Rear(0)).unwrap();
    assert_eq!(w.merge_nodes(&vec![77, a, b]), 77);
    assert_eq!(w.node_ids(), vec![a, b]);
    assert_eq!(w.edge_count(), 1);
}

#[test]
fn siblings_that_do_the_same_work_become_one() {
    let mut w = World::new();
    let p = w.add_block(repeater(1)).unwrap();
    let a = w.add_block(repeater(2)).unwrap();
    let b = w.add_block(repeater(2)).unwrap();
    let c = w.add_block(repeater(1)).unwrap();
    let t1 = w.add_block(torch()).unwrap();
    let t2 = w.add_block(torch()).unwrap();
    let x = w.add_block(redstone_min()).unwrap();
    for child in [a, b, c, t1, t2] {
        w.connect(p, child, Edge::Rear(0)).unwrap();
        w.connect(child, x, Edge::Rear(0)).unwrap();
    }
    assert!(w.add_probe(x, "x"));
    w.prune_groups();
    let nodes = w.node_ids();
    assert_eq!(nodes.len(), 5);
    assert!(nodes.contains(&p));
    assert!(nodes.contains(&c));
    assert!(nodes.contains(&x));
    assert!(nodes.contains(&a) != nodes.contains(&b));
    assert!(nodes.contains(&t1) != nodes.contains(&t2));
    assert_eq!(w.edge_count(), 8);
    w.prune_duplicate_edges();
    assert_eq!(w.edge_count(), 6);
    let into_x = links(&w).into_iter().filter(|l| l.1 == x).count();
    assert_eq!(into_x, 3);
}

#[test]
fn siblings_with_another_parent_stay_apart() {
    let mut w = World::new();
    let p = w.add_block(repeater(1)).unwrap();
    let q = w.add_block(repeater(1)).unwrap();
    let a = w.add_block(repeater(2)).unwrap();
    let b = w.add_block(repeater(2)).unwrap();
    w.connect(p, a, Edge::Rear(0)).unwrap();
    w.connect(p, b, Edge::Rear(0)).unwrap();
    w.connect(q, b, Edge::Rear(0)).unwrap();
    w.prune_groups();
    assert_eq!(w.node_ids(), vec![p, q, a, b]);
    assert_eq!(w.edge_count(), 3);
}

#[test]
fn merged_nodes_are_looked_at_in_turn() {
    let mut w = World::new();
    let p = w.add_block(torch()).unwrap();
    let a = w.add_block(repeater(1)).unwrap();
    let b = w.add_block(repeater(1)).unwrap();
    let a2 = w.add_block(torch()).unwrap();
    let b2 = w.add_block(torch()).unwrap();
    w.connect(p, a, Edge::Rear(0)).unwrap();
    w.connect(p, b, Edge::Rear(0)).unwrap();
    w.connect(a, a2, Edge::Rear(0)).unwrap();
    w.connect(b, b2, Edge::Rear(0)).unwrap();
    w.prune_groups();
    assert_eq!(w.node_count(), 3);
    w.prune_duplicate_edges();
    assert_eq!(w.edge_count(), 2);
}

fn sample() -> (World, Vec<u32>) {
    let mut w = World::new();
    let trigger = w.add_block(redstone_min()).unwrap();
    let source = w.add_block(redstone_max()).unwrap();
    let t = w.add_block(torch()).unwrap();
    let w1 = w.add_block(Block::Redstone(Redstone { signal: 15, held: false })).unwrap();
    let w2 = w.add_block(Block::Redstone(Redstone { signal: 14, held: false })).unwrap();
    let w3 = w.add_block(Block::Redstone(Redstone { signal: 13, held: false })).unwrap();
    let r1 = w.add_block(repeater(2)).unwrap();
    let r2 = w.add_block(repeater(2)).unwrap();
    let out = w.add_block(redstone_min()).unwrap();
    let far = w.add_block(redstone_min()).unwrap();
    let lone = w.add_block(repeater(4)).unwrap();
    w.connect(t, w1, Edge::Rear(0)).unwrap();
    w.connect(w1, w2, Edge::Rear(1)).unwrap();
    w.connect(w2, w3, Edge::Rear(1)).unwrap();
    w.connect(w2, w1, Edge::Rear(1)).unwrap();
    w.connect(w3, out, Edge::Rear(1)).unwrap();
    w.connect(w1, out, Edge::Rear(5)).unwrap();
    w.connect(trigger, w1, Edge::Rear(0)).unwrap();
    w.connect(source, r1, Edge::Rear(0)).unwrap();
    w.connect(source, r2, Edge::Rear(0)).unwrap();
    w.connect(r1, far, Edge::Rear(0)).unwrap();
    w.connect(r2, far, Edge::Rear(0)).unwrap();
    w.connect(r1, r2, Edge::Side(0)).unwrap();
    w.add_trigger(trigger, "in");
    w.add_constant(source);
    w.add_probe(out, "out");
    w.add_probe(far, "far");
    (w, vec![trigger, source, t, w1, w2, w3, r1, r2, out, far, lone])
}

#[test]
fn a_pruned_graph_has_no_plain_wire() {
    let (mut w, _) = sample();
    w.prune_graph().unwrap();
    for n in w.node_ids() {
        if w.block(n).unwrap().is_redstone() {
            assert!(w.is_registered(n));
        }
    }
}

#[test]
fn a_pruned_graph_has_short_edges_only() {
    let (mut w, _) = sample();
    w.prune_graph().unwrap();
    assert!(w.edge_count() > 0);
    for e in w.edge_ids() {
        assert!(w.edge(e).unwrap().weight.strength_loss() < 15);
    }
}

#[test]
fn a_pruned_graph_has_no_parallel_edges() {
    let (mut w, _) = sample();
    w.prune_graph().unwrap();
    let all = links(&w);
    for (i, a) in all.iter().enumerate() {
        for b in all.iter().skip(i + 1) {
            assert!(!(a.0 == b.0 && a.1 == b.1 && a.2.is_side() == b.2.is_side()));
        }
    }
}

#[test]
fn pruning_keeps_the_registered_nodes_and_what_the_probes_read() {
    let (mut w, n) = sample();
    let before = (w.get_probe("out"), w.get_probe("far"));
    assert_eq!(before, (true, false));
    w.prune_graph().unwrap();
    assert_eq!((w.get_probe("out"), w.get_probe("far")), before);
    let (trigger, source, t, out, far, lone) = (n[0], n[1], n[2], n[8], n[9], n[10]);
    for kept in [trigger, source, t, out, far] {
        assert!(w.block(kept).is_some());
    }
    assert_eq!(w.block(lone), None);
    for wire in [n[3], n[4], n[5]] {
        assert_eq!(w.block(wire), None);
    }
    assert_eq!(
        links(&w)
            .into_iter()
            .filter(|l| l.1 == out)
            .collect::<Vec<_>>(),
        vec![(trigger, out, Edge::Rear(5)), (t, out, Edge::Rear(5))]
    );
    w.step();
    assert_eq!((w.get_probe("out"), w.get_probe("far")), before);
}

#[test]
fn of_two_walks_to_a_node_the_one_found_first_gives_the_weight() {
    let mut w = World::new();
    let s = w.add_block(torch()).unwrap();
    let w1 = w.add_block(redstone_min()).unwrap();
    let w2 = w.add_block(redstone_min()).unwrap();
    let r = w.add_block(repeater(1)).unwrap();
    w.connect(s, w1, Edge::Rear(0)).unwrap();
    w.connect(w1, w2, Edge::Rear(1)).unwrap();
    w.connect(w2, r, Edge::Rear(0)).unwrap();
    w.connect(w1, r, Edge::Rear(7)).unwrap();
    w.prune_redstone().unwrap();
    assert_eq!(links(&w), vec![(s, r, Edge::Rear(7))]);
}

#[test]
fn an_empty_world_can_be_pruned() {
    let mut w = World::new();
    assert_eq!(w.prune_graph(), Ok(()));
    assert_eq!(w.node_count(), 0);
}

#[test]
fn a_world_of_many_nodes_is_pruned() {
    let mut w = World::new();
    let s = w.add_block(torch()).unwrap();
    let mut last = s;
    for i in 0..50_000u32 {
        let next = w.add_block(redstone_min()).unwrap();
        if i < 10 {
            w.connect(last, next, Edge::Rear(1)).unwrap();
            last = next;
        }
    }
    let r = w.add_block(repeater(1)).unwrap();
    w.connect(last, r, Edge::Rear(1)).unwrap();
    assert_eq!(r, 50_001);
    assert_eq!(w.prune_graph(), Ok(()));
    assert_eq!(w.node_ids(), vec![s, r]);
    assert_eq!(links(&w), vec![(s, r, Edge::Rear(11))]);
}

#[test]
fn each_pair_of_nodes_and_face_gets_one_shortcut() {
    let mut w = World::new();
    let s = w.add_block(torch()).unwrap();
    let a = w.add_block(redstone_min()).unwrap();
    let b = w.add_block(redstone_min()).unwrap();
    let c = w.add_block(redstone_min()).unwrap();
    let r = w.add_block(repeater(1)).unwrap();
    w.connect(s, a, Edge::Rear(0)).unwrap();
    w.connect(s, b, Edge::Rear(0)).unwrap();
    w.connect(a, c, Edge::Rear(1)).unwrap();
    w.connect(b, c, Edge::Rear(1)).unwrap();
    w.connect(a, r, Edge::Rear(3)).unwrap();
    w.connect(b, r, Edge::Rear(2)).unwrap();
    w.connect(c, r, Edge::Rear(0)).unwrap();
    w.connect(c, r, Edge::Side(0)).unwrap();
    w.connect(b, r, Edge::Side(4)).unwrap();
    w.prune_redstone().unwrap();
    let got = links(&w);
    assert_eq!(got.len(), 2);
    assert_eq!(got[0].0, s);
    assert_eq!(got[0].1, r);
    assert!(!got[0].2.is_side());
    assert!(got[0].2 == Edge::Rear(3) || got[0].2 == Edge::Rear(2));
    assert_eq!(got[1], (s, r, Edge::Side(4)));
}

#[test]
fn after_group_pruning_no_parent_feeds_two_alike_only_children() {
    let mut w = World::new();
    let root = w.add_block(torch()).unwrap();
    let mut layer = vec![root];
    for depth in 0..3 {
        let mut next = Vec::new();
        for parent in &layer {
            for delay in [1u8, 1, 2, 2, 2] {
                let child = w.add_block(repeater(delay)).unwrap();
                w.connect(*parent, child, Edge::Rear(0)).unwrap();
                next.push(child);
            }
            let lamp = w.add_block(torch()).unwrap();
            w.connect(*parent, lamp, Edge::Rear(depth)).unwrap();
            next.push(lamp);
            let other = w.add_block(torch()).unwrap();
            w.connect(*parent, other, Edge::Rear(depth)).unwrap();
            next.push(other);
        }
        layer = next;
    }
    assert_eq!(w.node_count(), 1 + 7 + 49 + 343);
    w.prune_groups();
    assert_eq!(w.node_count(), 1 + 3 + 9 + 27);
    for p in w.node_ids() {
        let mut keys: Vec<u8> = w.merge_candidates(p).into_iter().map(|c| c.0).collect();
        let all = keys.len();
        keys.sort();
        keys.dedup();
        assert_eq!(keys.len(), all);
    }
}
