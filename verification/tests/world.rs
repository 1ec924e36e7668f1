use redstone_simulator::blocks::comparator::{Comparator, ComparatorMode};
use redstone_simulator::blocks::redstone::Redstone;
use redstone_simulator::blocks::repeater::Repeater;
use redstone_simulator::blocks::torch::{Torch, NEVER};
use redstone_simulator::blocks::{redstone_max, redstone_min, Block, OutputPower};
use redstone_simulator::edge::Edge;
use redstone_simulator::graph::{input_power, successors, Link};
use redstone_simulator::world::World;

fn repeater(delay: u8) -> Block {
    Block::Repeater(Repeater::new(delay, false, false))
}

fn power_of(w: &World, node: u32) -> u8 {
    w.block(node).unwrap().output_power()
}

#[test]
fn new_world_is_empty() {
    let w = World::new();
    assert_eq!(w.node_count(), 0);
    assert_eq!(w.edge_count(), 0);
    assert_eq!(w.node_ids(), Vec::<u32>::new());
    assert_eq!(w.edge_ids(), Vec::<u32>::new());
    assert_eq!(w.block(0), None);
    assert_eq!(w.edge(0), None);
    assert!(!w.get_probe("anything"));
}

#[test]
fn add_block_gives_each_block_a_node() {
    let mut w = World::new();
    let a = w.add_block(redstone_min()).unwrap();
    let b = w.add_block(repeater(2)).unwrap();
    assert_ne!(a, b);
    assert_eq!(w.node_count(), 2);
    assert_eq!(w.block(a), Some(redstone_min()));
    assert_eq!(w.block(b), Some(repeater(2)));
    assert_eq!(w.node_ids(), vec![a, b]);
}

#[test]
fn add_block_refuses_what_is_not_well_formed() {
    let mut w = World::new();
    assert_eq!(w.add_block(Block::Redstone(Redstone { signal: 16, held: false })), None);
    assert_eq!(
        w.add_block(Block::Repeater(Repeater {
            powered: false,
            next_powered: false,
            delay: 5,
            count: 0,
            locked: false
        })),
        None
    );
    assert_eq!(
        w.add_block(Block::Repeater(Repeater {
            powered: false,
            next_powered: false,
            delay: 2,
            count: 2,
            locked: false
        })),
        None
    );
    assert_eq!(
        w.add_block(Block::Comparator(Comparator {
            signal: 0,
            next_signal: 0,
            entity_power: Some(16),
            mode: ComparatorMode::Compare,
            last_update: NEVER
        })),
        None
    );
    assert_eq!(w.node_count(), 0);
}

#[test]
fn connect_joins_two_nodes() {
    let mut w = World::new();
    let a = w.add_block(redstone_max()).unwrap();
    let b = w.add_block(repeater(1)).unwrap();
    let e = w.connect(a, b, Edge::Rear(3)).unwrap();
    let f = w.connect(a, b, Edge::Side(0)).unwrap();
    assert_ne!(e, f);
    assert_eq!(w.edge_count(), 2);
    assert_eq!(
        w.edge(e),
        Some(Link {
            source: a,
            target: b,
            weight: Edge::Rear(3)
        })
    );
    assert_eq!(
        w.edge(f),
        Some(Link {
            source: a,
            target: b,
            weight: Edge::Side(0)
        })
    );
    assert_eq!(w.edge_ids(), vec![e, f]);
    assert_eq!(successors(&w.blocks, a), vec![b, b]);
    assert_eq!(successors(&w.blocks, b), Vec::<u32>::new());
}

#[test]
fn connect_refuses_what_the_circuit_does_not_admit() {
    let mut w = World::new();
    let a = w.add_block(redstone_max()).unwrap();
    let b = w.add_block(redstone_min()).unwrap();
    assert_eq!(w.connect(a, 99, Edge::Rear(0)), None);
    assert_eq!(w.connect(99, b, Edge::Rear(0)), None);
    assert_eq!(w.connect(a, b, Edge::Rear(16)), None);
    assert_eq!(w.connect(a, b, Edge::Side(0)), None);
    assert_eq!(w.edge_count(), 0);
    assert!(w.connect(a, b, Edge::Rear(15)).is_some());
}

#[test]
fn input_power_is_the_strongest_of_each_channel() {
    let mut w = World::new();
    let strong = w.add_block(redstone_max()).unwrap();
    let weak = w.add_block(Block::Redstone(Redstone { signal: 6, held: false })).unwrap();
    let off = w.add_block(redstone_min()).unwrap();
    let r = w.add_block(repeater(1)).unwrap();
    w.connect(strong, r, Edge::Rear(4)).unwrap();
    w.connect(weak, r, Edge::Rear(1)).unwrap();
    w.connect(off, r, Edge::Rear(0)).unwrap();
    w.connect(weak, r, Edge::Side(2)).unwrap();
    w.connect(weak, r, Edge::Side(9)).unwrap();
    assert_eq!(input_power(&w.blocks, r), (11, 4));
    assert_eq!(input_power(&w.blocks, strong), (0, 0));
    assert_eq!(input_power(&w.blocks, 77), (0, 0));
}

#[test]
fn probe_reads_what_reaches_it() {
    let mut w = World::new();
    let src = w.add_block(redstone_max()).unwrap();
    let near = w.add_block(redstone_min()).unwrap();
    let far = w.add_block(redstone_min()).unwrap();
    let lone = w.add_block(redstone_min()).unwrap();
    w.connect(src, near, Edge::Rear(14)).unwrap();
    w.connect(src, far, Edge::Rear(15)).unwrap();
    assert!(w.add_probe(near, "near"));
    assert!(w.add_probe(far, "far"));
    assert!(w.add_probe(lone, "lone"));
    assert!(w.get_probe("near"));
    assert!(!w.get_probe("far"));
    assert!(!w.get_probe("lone"));
    assert!(!w.get_probe("unknown"));
    assert!(!w.get_probe(""));
}

#[test]
fn probes_are_wire_nodes_only() {
    let mut w = World::new();
    let r = w.add_block(repeater(1)).unwrap();
    assert!(!w.add_probe(r, "r"));
    assert!(!w.add_probe(42, "none"));
    assert!(!w.add_trigger(r, "r"));
    assert!(!w.add_constant(r));
    assert_eq!(w.probes.len(), 0);
    assert_eq!(w.triggers.len(), 0);
    assert!(!w.is_registered(r));
}

#[test]
fn a_name_stands_for_one_node_and_a_node_goes_by_one_name() {
    let mut w = World::new();
    let a = w.add_block(redstone_min()).unwrap();
    let b = w.add_block(redstone_min()).unwrap();
    let c = w.add_block(redstone_min()).unwrap();
    assert!(w.add_probe(a, "x"));
    assert!(w.add_probe(b, "y"));
    assert_eq!(w.probes.find("x"), Some(a));
    assert_eq!(w.probes.find("y"), Some(b));
    assert!(w.add_probe(c, "x"));
    assert_eq!(w.probes.find("x"), Some(c));
    assert!(!w.probes.contains_node(a));
    assert_eq!(w.probes.len(), 2);
    assert!(w.add_probe(c, "z"));
    assert_eq!(w.probes.find("x"), None);
    assert_eq!(w.probes.find("z"), Some(c));
    assert_eq!(w.probes.find("y"), Some(b));
    assert_eq!(w.probes.len(), 2);
    assert!(w.is_registered(b));
    assert!(w.is_registered(c));
    assert!(!w.is_registered(a));
}

#[test]
fn step_without_work_changes_nothing_but_the_tick() {
    let mut w = World::new();
    let src = w.add_block(redstone_max()).unwrap();
    let t = w.add_block(Block::Torch(Torch::with_lit(true))).unwrap();
    w.connect(src, t, Edge::Rear(0)).unwrap();
    assert_eq!(w.tick_counter, 0);
    w.step();
    assert_eq!(w.tick_counter, 1);
    assert_eq!(w.block(t), Some(Block::Torch(Torch::with_lit(true))));
    assert_eq!(w.updatable, Vec::<u32>::new());
}

#[test]
fn torch_goes_out_one_tick_after_it_is_powered() {
    let mut w = World::new();
    let src = w.add_block(redstone_max()).unwrap();
    let t = w.add_block(Block::Torch(Torch::with_lit(true))).unwrap();
    let p = w.add_block(redstone_min()).unwrap();
    w.connect(src, t, Edge::Rear(0)).unwrap();
    w.connect(t, p, Edge::Rear(0)).unwrap();
    assert!(w.add_probe(p, "out"));
    assert!(w.get_probe("out"));
    w.schedule(t);
    w.step();
    assert_eq!(power_of(&w, t), 0);
    assert!(!w.get_probe("out"));
    assert_eq!(w.updatable, vec![t, p]);
    assert_eq!(power_of(&w, p), 0);
    w.step();
    assert_eq!(power_of(&w, p), 0);
    assert_eq!(w.updatable, Vec::<u32>::new());
    assert_eq!(w.tick_counter, 2);
}

#[test]
fn wire_settles_within_the_tick_and_wakes_what_it_feeds() {
    let mut w = World::new();
    let src = w.add_block(redstone_max()).unwrap();
    let w1 = w.add_block(redstone_min()).unwrap();
    let w2 = w.add_block(redstone_min()).unwrap();
    let w3 = w.add_block(redstone_min()).unwrap();
    w.connect(src, w1, Edge::Rear(0)).unwrap();
    w.connect(w1, w2, Edge::Rear(1)).unwrap();
    w.connect(w2, w3, Edge::Rear(1)).unwrap();
    w.schedule(w1);
    w.step();
    assert_eq!(power_of(&w, w1), 15);
    assert_eq!(power_of(&w, w2), 14);
    assert_eq!(power_of(&w, w3), 13);
    assert_eq!(w.updatable, Vec::<u32>::new());
}

#[test]
fn a_pulse_passes_a_repeater_after_its_delay() {
    let mut w = World::new();
    let tr = w.add_block(redstone_min()).unwrap();
    let r = w.add_block(repeater(3)).unwrap();
    let p = w.add_block(redstone_min()).unwrap();
    w.connect(tr, r, Edge::Rear(0)).unwrap();
    w.connect(r, p, Edge::Rear(0)).unwrap();
    assert!(w.add_trigger(tr, "in"));
    assert!(w.add_probe(p, "out"));

    w.step_with_trigger();
    assert_eq!(power_of(&w, tr), 0);
    assert_eq!(w.updatable, vec![r, r]);
    assert_eq!(
        w.block(r),
        Some(Block::Repeater(Repeater {
            powered: false,
            next_powered: true,
            delay: 3,
            count: 1,
            locked: false
        }))
    );
    assert!(!w.get_probe("out"));

    w.step();
    assert_eq!(
        w.block(r),
        Some(Block::Repeater(Repeater {
            powered: false,
            next_powered: true,
            delay: 3,
            count: 2,
            locked: false
        }))
    );
    assert_eq!(w.updatable, vec![r]);
    assert!(!w.get_probe("out"));

    w.step();
    assert_eq!(power_of(&w, r), 15);
    assert!(w.get_probe("out"));
    assert_eq!(w.updatable, vec![r, p]);

    w.step();
    assert_eq!(power_of(&w, p), 15);
    assert!(w.get_probe("out"));
    w.step();
    assert!(w.get_probe("out"));
    w.step();
    assert_eq!(power_of(&w, r), 0);
    assert!(!w.get_probe("out"));
    w.step();
    assert_eq!(power_of(&w, p), 0);
    assert_eq!(w.tick_counter, 7);
}

#[test]
fn force_triggers_sets_the_triggers_and_wakes_what_they_feed() {
    let mut w = World::new();
    let a = w.add_block(redstone_min()).unwrap();
    let b = w.add_block(redstone_min()).unwrap();
    let r = w.add_block(repeater(1)).unwrap();
    let s = w.add_block(repeater(1)).unwrap();
    w.connect(a, r, Edge::Rear(0)).unwrap();
    w.connect(b, s, Edge::Rear(0)).unwrap();
    w.connect(b, r, Edge::Rear(0)).unwrap();
    assert!(w.add_trigger(a, "a"));
    assert!(w.add_trigger(b, "b"));
    w.force_triggers(15);
    assert_eq!(power_of(&w, a), 15);
    assert_eq!(power_of(&w, b), 15);
    assert_eq!(w.updatable, vec![r, s, r]);
    w.force_triggers(0);
    assert_eq!(power_of(&w, a), 0);
    assert_eq!(power_of(&w, b), 0);
    assert_eq!(w.updatable, vec![r, s, r, r, s, r]);
}

#[test]
fn step_drops_indices_that_are_no_nodes() {
    let mut w = World::new();
    let r = w.add_block(repeater(1)).unwrap();
    w.schedule(50);
    w.schedule(r);
    w.schedule(51);
    w.step();
    assert_eq!(w.updatable, Vec::<u32>::new());
    assert_eq!(w.block(r), Some(repeater(1)));
}

#[test]
fn comparator_in_a_circuit_subtracts_its_side() {
    let mut w = World::new();
    let rear = w.add_block(Block::Redstone(Redstone { signal: 12, held: false })).unwrap();
    let side = w.add_block(Block::Redstone(Redstone { signal: 5, held: false })).unwrap();
    let c = w
        .add_block(Block::Comparator(Comparator {
            signal: 0,
            next_signal: 0,
            entity_power: None,
            mode: ComparatorMode::Subtract,
            last_update: NEVER,
        }))
        .unwrap();
    let p = w.add_block(redstone_min()).unwrap();
    w.connect(rear, c, Edge::Rear(1)).unwrap();
    w.connect(side, c, Edge::Side(2)).unwrap();
    w.connect(c, p, Edge::Rear(0)).unwrap();
    assert!(w.add_probe(p, "diff"));
    assert!(!w.get_probe("diff"));
    w.schedule(c);
    w.step();
    assert_eq!(power_of(&w, c), 8);
    assert!(w.get_probe("diff"));
    w.step();
    assert_eq!(power_of(&w, p), 8);
}

#[test]
fn side_input_locks_a_repeater() {
    let mut w = World::new();
    let rear = w.add_block(redstone_max()).unwrap();
    let lock = w.add_block(Block::Repeater(Repeater::new(1, true, false))).unwrap();
    let r = w.add_block(repeater(1)).unwrap();
    w.connect(rear, r, Edge::Rear(0)).unwrap();
    w.connect(lock, r, Edge::Side(0)).unwrap();
    w.schedule(r);
    w.step();
    assert_eq!(
        w.block(r),
        Some(Block::Repeater(Repeater {
            powered: false,
            next_powered: false,
            delay: 1,
            count: 0,
            locked: true
        }))
    );
    assert_eq!(w.updatable, Vec::<u32>::new());
}

#[test]
fn stepping_twice_from_the_same_state_gives_the_same_state() {
    let build = || {
        let mut w = World::new();
        let tr = w.add_block(redstone_min()).unwrap();
        let a = w.add_block(repeater(2)).unwrap();
        let t = w.add_block(Block::Torch(Torch::with_lit(true))).unwrap();
        let b = w.add_block(repeater(1)).unwrap();
        let p = w.add_block(redstone_min()).unwrap();
        w.connect(tr, a, Edge::Rear(0)).unwrap();
        w.connect(a, t, Edge::Rear(0)).unwrap();
        w.connect(t, b, Edge::Rear(0)).unwrap();
        w.connect(b, p, Edge::Rear(0)).unwrap();
        w.connect(b, a, Edge::Side(0)).unwrap();
        w.add_trigger(tr, "in");
        w.add_probe(p, "out");
        w.schedule(b);
        w
    };
    let mut one = build();
    let mut two = build();
    one.step_with_trigger();
    two.step_with_trigger();
    for _ in 0..12 {
        one.step();
        two.step();
        assert_eq!(one.node_ids(), two.node_ids());
        for n in one.node_ids() {
            assert_eq!(one.block(n), two.block(n));
        }
        assert_eq!(one.updatable, two.updatable);
        assert_eq!(one.tick_counter, two.tick_counter);
        assert_eq!(one.get_probe("out"), two.get_probe("out"));
    }
}

#[test]
fn the_tick_numbers_start_again_before_the_last() {
    let mut w = World::new();
    w.tick_counter = usize::MAX - 2;
    w.step();
    assert_eq!(w.tick_counter, usize::MAX - 1);
    w.step();
    assert_eq!(w.tick_counter, 0);
    w.step();
    assert_eq!(w.tick_counter, 1);
}

#[test]
fn a_torch_that_no_tick_has_committed_commits_at_tick_zero() {
    let mut w = World::new();
    let src = w.add_block(redstone_max()).unwrap();
    let t = w.add_block(Block::Torch(Torch::with_lit(true))).unwrap();
    w.connect(src, t, Edge::Rear(0)).unwrap();
    w.schedule(t);
    w.step();
    assert_eq!(
        w.block(t),
        Some(Block::Torch(Torch {
            lit: false,
            next_lit: false,
            last_update: 0
        }))
    );
}

#[test]
fn a_constant_source_on_the_list_keeps_the_full_signal() {
    let mut w = World::new();
    let src = w.add_block(redstone_min()).unwrap();
    let r = w.add_block(repeater(1)).unwrap();
    w.connect(src, r, Edge::Rear(0)).unwrap();
    assert!(w.add_constant(src));
    assert_eq!(power_of(&w, src), 15);
    assert!(w.add_trigger(src, "also"));
    w.schedule(src);
    w.schedule(r);
    w.step_with_trigger();
    assert_eq!(power_of(&w, src), 15);
    w.step();
    assert_eq!(power_of(&w, src), 15);
    assert_eq!(power_of(&w, r), 15);
}
