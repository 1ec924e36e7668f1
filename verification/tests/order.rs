use redstone_simulator::blocks::comparator::{Comparator, ComparatorMode};
use redstone_simulator::blocks::repeater::Repeater;
use redstone_simulator::blocks::torch::{Torch, NEVER};
use redstone_simulator::blocks::{redstone_max, redstone_min, Block};
use redstone_simulator::edge::Edge;
use redstone_simulator::world::World;

fn circuit() -> (World, Vec<u32>) {
    let mut w = World::new();
    let source = w.add_block(redstone_max()).unwrap();
    let a = w.add_block(Block::Repeater(Repeater::new(2, false, false))).unwrap();
    let b = w.add_block(Block::Repeater(Repeater::new(1, true, false))).unwrap();
    let t = w.add_block(Block::Torch(Torch::with_lit(true))).unwrap();
    let c = w
        .add_block(Block::Comparator(Comparator {
            signal: 0,
            next_signal: 0,
            entity_power: None,
            mode: ComparatorMode::Subtract,
            last_update: NEVER,
        }))
        .unwrap();
    let p = w.add_block(redstone_min()).unwrap();
    w.connect(source, a, Edge::Rear(0)).unwrap();
    w.connect(a, b, Edge::Rear(0)).unwrap();
    w.connect(b, t, Edge::Rear(0)).unwrap();
    w.connect(t, c, Edge::Rear(0)).unwrap();
    w.connect(b, c, Edge::Side(2)).unwrap();
    w.connect(c, p, Edge::Rear(0)).unwrap();
    w.connect(t, a, Edge::Side(0)).unwrap();
    w.add_probe(p, "p");
    w.add_constant(source);
    (w, vec![a, b, t, c, p])
}

fn sorted(mut v: Vec<u32>) -> Vec<u32> {
    v.sort();
    v.dedup();
    v
}

#[test]
fn the_order_of_the_work_list_does_not_matter() {
    let orders: Vec<Vec<usize>> = vec![
        vec![0, 1, 2, 3, 4],
        vec![4, 3, 2, 1, 0],
        vec![2, 0, 4, 1, 3],
        vec![3, 3, 1, 0, 2, 4, 0],
        vec![1, 4, 4, 2, 2, 0, 3, 1],
    ];
    let mut worlds: Vec<World> = Vec::new();
    for order in &orders {
        let (mut w, nodes) = circuit();
        for i in order {
            w.schedule(nodes[*i]);
        }
        worlds.push(w);
    }
    for _ in 0..8 {
        for w in worlds.iter_mut() {
            w.step();
        }
        let (first, others) = worlds.split_first().unwrap();
        for w in others {
            assert_eq!(w.tick_counter, first.tick_counter);
            for n in first.node_ids() {
                assert_eq!(w.block(n), first.block(n));
            }
            assert_eq!(sorted(w.updatable.clone()), sorted(first.updatable.clone()));
            assert_eq!(w.get_probe("p"), first.get_probe("p"));
        }
    }
}

#[test]
fn a_node_listed_twice_is_committed_once() {
    let mut w = World::new();
    let source = w.add_block(redstone_max()).unwrap();
    let r = w.add_block(Block::Repeater(Repeater::new(4, false, false))).unwrap();
    w.connect(source, r, Edge::Rear(0)).unwrap();
    for _ in 0..5 {
        w.schedule(r);
    }
    w.step();
    assert_eq!(
        w.block(r),
        Some(Block::Repeater(Repeater {
            powered: false,
            next_powered: true,
            delay: 4,
            count: 1,
            locked: false
        }))
    );
    assert_eq!(w.updatable, vec![r]);
}

#[test]
fn merge_candidates_are_the_only_children_that_can_merge() {
    let mut w = World::new();
    let p = w.add_block(Block::Repeater(Repeater::new(1, false, false))).unwrap();
    let q = w.add_block(Block::Repeater(Repeater::new(1, false, false))).unwrap();
    let a = w.add_block(Block::Repeater(Repeater::new(3, false, false))).unwrap();
    let b = w.add_block(Block::Torch(Torch::with_lit(false))).unwrap();
    let shared = w.add_block(Block::Repeater(Repeater::new(3, false, false))).unwrap();
    let twice = w.add_block(Block::Torch(Torch::with_lit(false))).unwrap();
    let wire = w.add_block(redstone_min()).unwrap();
    w.connect(p, a, Edge::Rear(0)).unwrap();
    w.connect(p, b, Edge::Rear(0)).unwrap();
    w.connect(p, shared, Edge::Rear(0)).unwrap();
    w.connect(q, shared, Edge::Rear(0)).unwrap();
    w.connect(p, twice, Edge::Rear(0)).unwrap();
    w.connect(p, twice, Edge::Rear(1)).unwrap();
    w.connect(p, wire, Edge::Rear(0)).unwrap();
    let mut got = w.merge_candidates(p);
    got.sort();
    assert_eq!(got, vec![(0, b), (3, a)]);
    assert_eq!(w.merge_candidates(q), vec![]);
    assert_eq!(w.merge_candidates(99), vec![]);
}
