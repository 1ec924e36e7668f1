use redstone_simulator::blocks::comparator::{CComparator, ComparatorMode};
use redstone_simulator::blocks::redstone_block::CRedstoneBlock;
use redstone_simulator::blocks::repeater::Repeater;
use redstone_simulator::blocks::torch::Torch;
use redstone_simulator::blocks::{redstone_min, redstone_source, Block};
use redstone_simulator::cblock::{
    can_connect, hit_face, BlockConnections, CBlock, CProbe, CRedstone, CRepeater, CSolidStrong,
    CSolidWeak, CTorch, CTrigger,
};
use redstone_simulator::edge::{Edge, InputSide};
use redstone_simulator::facing::Facing;
use redstone_simulator::graph::Link;
use redstone_simulator::world::World;

fn wire(node: Option<u32>) -> CBlock {
    CBlock::Redstone(CRedstone {
        signal: 3,
        north: true,
        east: false,
        south: true,
        west: false,
        node,
    })
}

fn repeater(facing: Facing, node: Option<u32>) -> CBlock {
    CBlock::Repeater(CRepeater {
        facing,
        delay: 2,
        powered: true,
        locked: false,
        node,
    })
}

fn comparator(facing: Facing, node: Option<u32>) -> CBlock {
    let mut c = CComparator::new(facing, ComparatorMode::Compare);
    c.node = node;
    CBlock::Comparator(c)
}

fn torch(facing: Facing, node: Option<u32>) -> CBlock {
    CBlock::Torch(CTorch {
        facing,
        lit: true,
        node,
    })
}

fn kinds(node: Option<u32>) -> Vec<CBlock> {
    vec![
        wire(node),
        CBlock::SolidWeak(CSolidWeak { node }),
        CBlock::SolidStrong(CSolidStrong { node }),
        CBlock::Trigger(CTrigger { node }),
        CBlock::Probe(CProbe { node }),
        repeater(Facing::North, node),
        CBlock::RedstoneBlock(CRedstoneBlock { node }),
        torch(Facing::Up, node),
        comparator(Facing::North, node),
    ]
}

#[test]
fn wire_puts_out_where_it_connects_and_below() {
    let w = wire(Some(4));
    assert_eq!(w.can_output(Facing::North), Some(4));
    assert_eq!(w.can_output(Facing::South), Some(4));
    assert_eq!(w.can_output(Facing::East), None);
    assert_eq!(w.can_output(Facing::West), None);
    assert_eq!(w.can_output(Facing::Up), None);
    assert_eq!(w.can_output(Facing::Down), Some(4));
    assert_eq!(wire(None).can_output(Facing::Down), None);
    for f in Facing::all() {
        assert_eq!(w.can_input(f), Some(InputSide::Rear));
    }
}

#[test]
fn triggers_and_redstone_blocks_put_out_and_take_nothing_in() {
    for b in [
        CBlock::Trigger(CTrigger { node: Some(1) }),
        CBlock::RedstoneBlock(CRedstoneBlock { node: Some(1) }),
    ] {
        for f in Facing::all() {
            assert_eq!(b.can_output(f), Some(1));
            assert_eq!(b.can_input(f), None);
        }
    }
}

#[test]
fn probes_take_in_and_put_nothing_out() {
    let p = CBlock::Probe(CProbe { node: Some(1) });
    for f in Facing::all() {
        assert_eq!(p.can_output(f), None);
        assert_eq!(p.can_input(f), Some(InputSide::Rear));
    }
}

#[test]
fn repeaters_and_comparators_put_out_opposite_to_their_facing() {
    for b in [repeater(Facing::West, Some(2)), comparator(Facing::West, Some(2))] {
        assert_eq!(b.can_output(Facing::East), Some(2));
        assert_eq!(b.can_output(Facing::West), None);
        assert_eq!(b.can_output(Facing::North), None);
        assert_eq!(b.can_output(Facing::Up), None);
        assert_eq!(b.can_input(Facing::East), Some(InputSide::Rear));
        assert_eq!(b.can_input(Facing::North), Some(InputSide::Side));
        assert_eq!(b.can_input(Facing::South), Some(InputSide::Side));
        assert_eq!(b.can_input(Facing::West), None);
        assert_eq!(b.can_input(Facing::Up), None);
        assert_eq!(b.can_input(Facing::Down), None);
    }
}

#[test]
fn hit_face_tells_rear_from_side() {
    assert_eq!(hit_face(Facing::North, Facing::South), Some(InputSide::Rear));
    assert_eq!(hit_face(Facing::North, Facing::East), Some(InputSide::Side));
    assert_eq!(hit_face(Facing::North, Facing::West), Some(InputSide::Side));
    assert_eq!(hit_face(Facing::North, Facing::North), None);
    assert_eq!(hit_face(Facing::North, Facing::Up), None);
    assert_eq!(hit_face(Facing::North, Facing::Down), None);
}

#[test]
fn a_torch_takes_in_from_its_block_and_puts_out_elsewhere() {
    let floor = torch(Facing::Up, Some(3));
    assert_eq!(floor.can_input(Facing::Up), Some(InputSide::Rear));
    assert_eq!(floor.can_input(Facing::Down), None);
    assert_eq!(floor.can_input(Facing::North), None);
    assert_eq!(floor.can_output(Facing::Down), None);
    assert_eq!(floor.can_output(Facing::Up), Some(3));
    assert_eq!(floor.can_output(Facing::East), Some(3));
    let wall = torch(Facing::East, Some(3));
    assert_eq!(wall.can_input(Facing::East), Some(InputSide::Rear));
    assert_eq!(wall.can_input(Facing::West), None);
    assert_eq!(wall.can_output(Facing::West), None);
    assert_eq!(wall.can_output(Facing::East), Some(3));
    assert_eq!(wall.can_output(Facing::Up), Some(3));
}

#[test]
fn the_connection_table() {
    let yes = true;
    let no = false;
    // rows: source; columns: target; in the order of `kinds`
    // wire, weak, strong, trigger, probe, repeater, block, torch, comparator
    let from_behind = [
        [yes, yes, no, no, yes, yes, no, no, yes],
        [no, no, no, no, no, yes, no, yes, yes],
        [yes, no, no, no, no, yes, no, yes, yes],
        [yes, no, no, no, no, yes, no, yes, yes],
        [no, no, no, no, no, no, no, no, no],
        [yes, no, yes, no, yes, yes, no, no, yes],
        [yes, no, no, no, no, yes, no, yes, yes],
        [yes, no, no, no, no, yes, no, no, yes],
        [yes, no, yes, no, yes, yes, no, no, yes],
    ];
    let from_the_side = [
        [yes, yes, no, no, yes, no, no, no, yes],
        [no, no, no, no, no, no, no, yes, no],
        [yes, no, no, no, no, no, no, yes, no],
        [yes, no, no, no, no, no, no, yes, no],
        [no, no, no, no, no, no, no, no, no],
        [yes, no, yes, no, yes, yes, no, no, yes],
        [yes, no, no, no, no, no, no, yes, yes],
        [yes, no, no, no, no, no, no, no, no],
        [yes, no, yes, no, yes, yes, no, no, yes],
    ];
    let all = kinds(None);
    for (i, s) in all.iter().enumerate() {
        for (j, t) in all.iter().enumerate() {
            assert_eq!(
                can_connect(s, t, Facing::South),
                from_behind[i][j],
                "{:?} -> {:?} from behind",
                s,
                t
            );
            assert_eq!(
                can_connect(s, t, Facing::East),
                from_the_side[i][j],
                "{:?} -> {:?} from the side",
                s,
                t
            );
        }
    }
}

#[test]
fn a_torch_feeds_solid_blocks_and_probes_above_it_only() {
    let t = torch(Facing::Up, None);
    let strong = CBlock::SolidStrong(CSolidStrong { node: None });
    let probe = CBlock::Probe(CProbe { node: None });
    for f in Facing::all() {
        assert_eq!(can_connect(&t, &strong, f), f == Facing::Up);
        assert_eq!(can_connect(&t, &probe, f), f == Facing::Up);
    }
}

#[test]
fn is_transparent_tells_components_from_full_blocks() {
    let expected = [true, false, false, false, false, true, false, true, true];
    for (b, e) in kinds(None).iter().zip(expected) {
        assert_eq!(b.is_transparent(), e);
    }
}

#[test]
fn link_to_gives_the_edge_between_neighbours() {
    let a = wire(Some(0));
    let b = wire(Some(1));
    assert_eq!(
        a.link_to(&b, Facing::North),
        Some(Link {
            source: 0,
            target: 1,
            weight: Edge::Rear(1)
        })
    );
    assert_eq!(a.link_to(&b, Facing::East), None);
    assert_eq!(a.link_to(&wire(None), Facing::North), None);
    assert_eq!(wire(None).link_to(&b, Facing::North), None);
    let r = repeater(Facing::South, Some(2));
    assert_eq!(
        a.link_to(&r, Facing::North),
        Some(Link {
            source: 0,
            target: 2,
            weight: Edge::Rear(0)
        })
    );
    let across = repeater(Facing::East, Some(3));
    assert_eq!(a.link_to(&across, Facing::North), None);
    let other = repeater(Facing::South, Some(4));
    assert_eq!(
        other.link_to(&across, Facing::North),
        Some(Link {
            source: 4,
            target: 3,
            weight: Edge::Side(0)
        })
    );
    let weak = CBlock::SolidWeak(CSolidWeak { node: Some(5) });
    assert_eq!(
        a.link_to(&weak, Facing::Down),
        Some(Link {
            source: 0,
            target: 5,
            weight: Edge::Rear(0)
        })
    );
    assert_eq!(weak.link_to(&a, Facing::Up), None);
    assert_eq!(a.can_output_node(), Some(0));
}

#[test]
fn add_node_puts_the_block_of_the_running_circuit_into_the_graph() {
    let mut w = World::new();
    let mut placed = Vec::new();
    for mut b in kinds(None) {
        b.add_node(&mut w.blocks);
        placed.push(b);
    }
    assert_eq!(w.node_count(), 9);
    let ids: Vec<u32> = placed.iter().map(|b| b.can_output_node().unwrap()).collect();
    assert_eq!(ids, w.node_ids());
    assert_eq!(w.block(ids[0]).unwrap().is_redstone(), true);
    assert_eq!(
        w.block(ids[0]),
        Some(Block::Redstone(
            redstone_simulator::blocks::redstone::Redstone { signal: 3, held: false }
        ))
    );
    for k in [1, 2, 3, 4] {
        assert_eq!(w.block(ids[k]), Some(redstone_min()));
    }
    assert_eq!(
        w.block(ids[5]),
        Some(Block::Repeater(Repeater::new(2, true, false)))
    );
    assert_eq!(w.block(ids[6]), Some(redstone_source()));
    assert_eq!(w.block(ids[7]), Some(Block::Torch(Torch::with_lit(true))));
    match w.block(ids[8]) {
        Some(Block::Comparator(_)) => {}
        other => panic!("{:?}", other),
    }
}

#[test]
fn add_edge_joins_the_nodes_of_neighbours() {
    let mut w = World::new();
    let mut a = wire(None);
    let mut b = repeater(Facing::South, None);
    a.add_node(&mut w.blocks);
    b.add_node(&mut w.blocks);
    a.add_edge(&b, Facing::East, &mut w.blocks);
    assert_eq!(w.edge_count(), 0);
    b.add_edge(&a, Facing::South, &mut w.blocks);
    assert_eq!(w.edge_count(), 0);
    a.add_edge(&b, Facing::North, &mut w.blocks);
    assert_eq!(w.edge_count(), 1);
    assert_eq!(
        w.edge(w.edge_ids()[0]),
        Some(Link {
            source: a.can_output_node().unwrap(),
            target: b.can_output_node().unwrap(),
            weight: Edge::Rear(0)
        })
    );
    b.add_edge(&a, Facing::North, &mut w.blocks);
    assert_eq!(w.edge_count(), 2);
}
