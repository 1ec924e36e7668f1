use redstone_simulator::blocks::comparator::{CComparator, Comparator, ComparatorMode};
use redstone_simulator::blocks::repeater::Repeater;
use redstone_simulator::blocks::torch::{Torch, NEVER};
use redstone_simulator::blocks::{redstone_min, redstone_source, Block, OutputPower};
use redstone_simulator::cblock::{BlockConnections, CBlock, Palette};
use redstone_simulator::edge::Edge;
use redstone_simulator::facing::Facing;
use redstone_simulator::parse::BuildError;
use redstone_simulator::world::World;
use redstone_simulator::world_build::{collect_links, plan_all, plan_tile, MAX_TILES};
use redstone_simulator::world_data::{block_is, same_position, Tile, TileMap};

fn palette() -> Palette {
    Palette {
        solid: vec!["minecraft:stone".to_string()],
        transparent: vec!["minecraft:air".to_string()],
    }
}

fn tile(pos: (usize, usize, usize), id: &str) -> Tile {
    Tile {
        pos,
        id: id.to_string(),
        name: String::new(),
        output_signal: None,
    }
}

fn named(pos: (usize, usize, usize), id: &str, name: &str) -> Tile {
    Tile {
        pos,
        id: id.to_string(),
        name: name.to_string(),
        output_signal: None,
    }
}

fn map_of(tiles: Vec<Tile>) -> TileMap {
    let mut m = TileMap::new();
    for t in tiles {
        m.insert(t);
    }
    m
}

fn links(w: &World) -> Vec<(u32, u32, Edge)> {
    let mut all: Vec<(u32, u32, bool, u8)> = w
        .edge_ids()
        .into_iter()
        .map(|e| w.edge(e).unwrap())
        .map(|l| (l.source, l.target, l.weight.is_side(), l.weight.strength_loss()))
        .collect();
    all.sort();
    all.into_iter()
        .map(|(s, t, side, loss)| (s, t, if side { Edge::Side(loss) } else { Edge::Rear(loss) }))
        .collect()
}

#[test]
fn same_position_compares_all_three_coordinates() {
    assert!(same_position((1, 2, 3), (1, 2, 3)));
    assert!(!same_position((1, 2, 3), (0, 2, 3)));
    assert!(!same_position((1, 2, 3), (1, 0, 3)));
    assert!(!same_position((1, 2, 3), (1, 2, 0)));
}

#[test]
fn block_is_compares_the_name_of_the_block() {
    assert!(block_is("minecraft:furnace[facing=north,lit=false]", "minecraft:furnace"));
    assert!(block_is("minecraft:furnace", "minecraft:furnace"));
    assert!(!block_is("minecraft:furnace", "minecraft:furnac"));
    assert!(!block_is("minecraft:blast_furnace", "minecraft:furnace"));
}

#[test]
fn tile_map_holds_one_tile_for_each_position() {
    let mut m = TileMap::new();
    assert_eq!(m.len(), 0);
    assert_eq!(m.find((0, 0, 0)), None);
    m.insert(tile((0, 0, 0), "a"));
    m.insert(tile((1, 0, 0), "b"));
    m.insert(tile((0, 0, 1), "c"));
    assert_eq!(m.len(), 3);
    assert_eq!(m.find((1, 0, 0)), Some(1));
    assert_eq!(m.find((0, 1, 0)), None);
    assert_eq!(m.get((0, 0, 1)).unwrap().id, "c");
    assert!(m.get((5, 5, 5)).is_none());
    m.insert(tile((1, 0, 0), "d"));
    assert_eq!(m.len(), 3);
    assert_eq!(m.find((1, 0, 0)), Some(1));
    assert_eq!(m.get((1, 0, 0)).unwrap().id, "d");
    assert_eq!(m.get((0, 0, 0)).unwrap().id, "a");
}

#[test]
fn an_empty_map_builds_an_empty_world() {
    let w = World::from_tiles(&TileMap::new(), &palette()).ok().unwrap();
    assert_eq!(w.node_count(), 0);
    assert_eq!(w.edge_count(), 0);
    assert_eq!(w.updatable, Vec::<u32>::new());
    assert_eq!(w.tick_counter, 0);
    assert_eq!(MAX_TILES, 178_956_970);
}

#[test]
fn transparent_tiles_give_no_node_and_solid_ones_two() {
    let m = map_of(vec![tile((0, 0, 0), "minecraft:air"), tile((1, 0, 0), "minecraft:stone")]);
    let (w, layout) = World::build(&m, &palette()).ok().unwrap();
    assert_eq!(layout.len(), 2);
    assert_eq!(layout[0].len(), 0);
    assert_eq!(layout[1].len(), 2);
    assert_eq!(w.node_count(), 2);
    assert_eq!(w.edge_count(), 0);
    for b in &layout[1] {
        assert_eq!(w.block(b.can_output_node().unwrap()), Some(redstone_min()));
    }
}

#[test]
fn the_first_tile_that_cannot_be_read_gives_the_error() {
    let p = palette();
    let unknown = map_of(vec![
        tile((0, 0, 0), "minecraft:stone"),
        tile((1, 0, 0), "minecraft:unheard_of"),
        tile((2, 0, 0), "minecraft:repeater[facing=up]"),
    ]);
    assert_eq!(World::from_tiles(&unknown, &p).err(), Some(BuildError::UnknownBlock));
    assert_eq!(plan_all(&p, &unknown).err(), Some(BuildError::UnknownBlock));
    let malformed = map_of(vec![
        tile((0, 0, 0), "minecraft:repeater[delay=1,facing=up,locked=false,powered=false]"),
        tile((1, 0, 0), "minecraft:unheard_of"),
    ]);
    assert_eq!(
        World::from_tiles(&malformed, &p).err(),
        Some(BuildError::MalformedMetadata)
    );
    let comparator = map_of(vec![tile(
        (0, 0, 0),
        "minecraft:comparator[facing=north,mode=compare,powered=false]",
    )]);
    assert_eq!(
        World::from_tiles(&comparator, &p).err(),
        Some(BuildError::MissingOutputSignal)
    );
    assert_eq!(
        World::build(&comparator, &p).err(),
        Some(BuildError::MissingOutputSignal)
    );
}

#[test]
fn a_comparator_takes_its_signal_and_the_power_behind_it_from_the_tiles() {
    let id = "minecraft:comparator[facing=north,mode=subtract,powered=true]";
    let mut c = tile((5, 5, 5), id);
    c.output_signal = Some(9);
    let m = map_of(vec![
        c,
        tile((5, 5, 4), "minecraft:furnace[facing=north,lit=false]"),
    ]);
    let mut p = palette();
    p.solid.push("minecraft:furnace".to_string());
    let row = plan_tile(&p, &m, 0).ok().unwrap();
    assert_eq!(
        row,
        vec![CBlock::Comparator(CComparator {
            signal: 9,
            facing: Facing::North,
            mode: ComparatorMode::Subtract,
            entity_power: Some(1),
            node: None
        })]
    );
    let w = World::from_tiles(&m, &p).ok().unwrap();
    assert_eq!(
        w.block(0),
        Some(Block::Comparator(Comparator {
            signal: 9,
            next_signal: 9,
            entity_power: Some(1),
            mode: ComparatorMode::Subtract,
            last_update: NEVER
        }))
    );
}

#[test]
fn update_from_tile_reads_the_tile_of_the_comparator() {
    let id = "minecraft:comparator[facing=east,mode=compare,powered=false]";
    let mut here = tile((1, 1, 1), id);
    here.output_signal = Some(3);
    let mut wrong = tile((1, 1, 3), id);
    wrong.output_signal = Some(16);
    let mut negative = tile((1, 1, 5), id);
    negative.output_signal = Some(-1);
    let m = map_of(vec![
        here,
        tile((2, 1, 1), "minecraft:stone"),
        wrong,
        negative,
        tile((1, 1, 7), id),
    ]);
    let fresh = CComparator::new(Facing::East, ComparatorMode::Compare);
    let mut c = fresh;
    assert_eq!(c.update_from_tile((1, 1, 1), &m), Ok(()));
    assert_eq!(c.signal, 3);
    assert_eq!(c.entity_power, None);
    assert!(!c.contains_entity_power());
    let mut d = fresh;
    assert_eq!(
        d.update_from_tile((1, 1, 3), &m),
        Err(BuildError::MalformedMetadata)
    );
    assert_eq!(d, fresh);
    assert_eq!(
        d.update_from_tile((1, 1, 5), &m),
        Err(BuildError::MalformedMetadata)
    );
    assert_eq!(
        d.update_from_tile((1, 1, 7), &m),
        Err(BuildError::MissingOutputSignal)
    );
    assert_eq!(
        d.update_from_tile((9, 9, 9), &m),
        Err(BuildError::MissingOutputSignal)
    );
    assert_eq!(d, fresh);
}

#[test]
fn neighbours_are_joined_by_the_rules_of_their_kinds() {
    let m = map_of(vec![
        named((0, 0, 0), "minecraft:gold_block", "in"),
        tile(
            (1, 0, 0),
            "minecraft:redstone_wire[east=side,north=none,power=0,south=none,west=side]",
        ),
        tile(
            (2, 0, 0),
            "minecraft:redstone_wire[east=side,north=none,power=0,south=none,west=side]",
        ),
        tile(
            (3, 0, 0),
            "minecraft:repeater[delay=1,facing=west,locked=false,powered=false]",
        ),
        named((4, 0, 0), "minecraft:diamond_block", "out"),
    ]);
    let (w, layout) = World::build(&m, &palette()).ok().unwrap();
    let node = |i: usize| layout[i][0].can_output_node().unwrap();
    let (tr, w1, w2, r, p) = (node(0), node(1), node(2), node(3), node(4));
    assert_eq!(w.node_ids(), vec![tr, w1, w2, r, p]);
    assert_eq!(
        links(&w),
        vec![
            (tr, w1, Edge::Rear(0)),
            (w1, w2, Edge::Rear(1)),
            (w2, w1, Edge::Rear(1)),
            (w2, r, Edge::Rear(0)),
            (r, p, Edge::Rear(0)),
        ]
    );
    assert_eq!(w.triggers.find("in"), Some(tr));
    assert_eq!(w.probes.find("out"), Some(p));
    assert_eq!(w.triggers.len(), 1);
    assert_eq!(w.probes.len(), 1);
    assert_eq!(w.constants, Vec::<u32>::new());
    assert_eq!(collect_links(&m, &layout).len(), 5);
}

#[test]
fn a_pulse_runs_through_a_built_and_pruned_world() {
    let m = map_of(vec![
        named((0, 0, 0), "minecraft:gold_block", "in"),
        tile(
            (1, 0, 0),
            "minecraft:redstone_wire[east=side,north=none,power=0,south=none,west=side]",
        ),
        tile(
            (2, 0, 0),
            "minecraft:redstone_wire[east=side,north=none,power=0,south=none,west=side]",
        ),
        tile(
            (3, 0, 0),
            "minecraft:repeater[delay=1,facing=west,locked=false,powered=false]",
        ),
        named((4, 0, 0), "minecraft:diamond_block", "out"),
    ]);
    let mut w = World::from_tiles(&m, &palette()).ok().unwrap();
    w.prune_graph().unwrap();
    assert_eq!(w.node_count(), 3);
    assert_eq!(links(&w), vec![(0, 3, Edge::Rear(1)), (3, 4, Edge::Rear(0))]);
    assert!(!w.get_probe("out"));
    w.step_with_trigger();
    assert!(w.get_probe("out"));
    w.step();
    assert!(!w.get_probe("out"));
    w.step();
    assert!(!w.get_probe("out"));
}

#[test]
fn torch_test() {
    let m = map_of(vec![
        tile((1, 0, 0), "minecraft:redstone_block"),
        tile((2, 0, 0), "minecraft:redstone_wall_torch[facing=east,lit=false]"),
        named((2, 1, 0), "minecraft:diamond_block", "torch_test"),
    ]);
    let mut world = World::from_tiles(&m, &palette()).ok().unwrap();
    assert_eq!(world.constants, vec![0]);
    assert_eq!(world.block(0), Some(redstone_source()));
    assert_eq!(links(&world), vec![(0, 1, Edge::Rear(0)), (1, 2, Edge::Rear(0))]);
    world.prune_graph().unwrap();
    assert_eq!(world.node_count(), 3);
    assert!(!world.get_probe("torch_test"));
    world.step();
    assert!(!world.get_probe("torch_test"));
}

#[test]
fn a_torch_on_an_unpowered_block_is_lit() {
    let m = map_of(vec![
        tile((1, 0, 0), "minecraft:stone"),
        tile((2, 0, 0), "minecraft:redstone_wall_torch[facing=east,lit=true]"),
        named((2, 1, 0), "minecraft:diamond_block", "lamp"),
    ]);
    let mut world = World::from_tiles(&m, &palette()).ok().unwrap();
    assert_eq!(world.node_count(), 4);
    assert_eq!(world.edge_count(), 3);
    assert!(world.get_probe("lamp"));
    world.prune_graph().unwrap();
    assert_eq!(world.node_count(), 2);
    assert_eq!(world.edge_count(), 1);
    assert!(world.get_probe("lamp"));
    world.step();
    assert!(world.get_probe("lamp"));
}

#[test]
fn an_inverter_follows_its_trigger() {
    let m = map_of(vec![
        named((0, 0, 0), "minecraft:gold_block", "in"),
        tile(
            (1, 0, 0),
            "minecraft:redstone_wire[east=side,north=none,power=0,south=none,west=side]",
        ),
        tile((2, 0, 0), "minecraft:stone"),
        tile((3, 0, 0), "minecraft:redstone_wall_torch[facing=east,lit=true]"),
        named((3, 1, 0), "minecraft:diamond_block", "not_in"),
    ]);
    let mut world = World::from_tiles(&m, &palette()).ok().unwrap();
    world.prune_graph().unwrap();
    assert_eq!(world.node_count(), 3);
    assert!(world.get_probe("not_in"));
    world.step_with_trigger();
    assert!(!world.get_probe("not_in"));
    world.step();
    assert!(world.get_probe("not_in"));
    world.step();
    assert!(world.get_probe("not_in"));
}

#[test]
fn of_two_probes_with_one_name_the_later_keeps_it() {
    let m = map_of(vec![
        named((0, 0, 0), "minecraft:diamond_block", "p"),
        named((5, 0, 0), "minecraft:diamond_block", "q"),
        named((9, 0, 0), "minecraft:diamond_block", "p"),
    ]);
    let w = World::from_tiles(&m, &palette()).ok().unwrap();
    assert_eq!(w.node_count(), 3);
    assert_eq!(w.probes.len(), 2);
    assert_eq!(w.probes.find("p"), Some(2));
    assert_eq!(w.probes.find("q"), Some(1));
}

#[test]
fn a_repeater_beside_a_repeater_locks_it() {
    let m = map_of(vec![
        tile((0, 0, 1), "minecraft:redstone_block"),
        tile(
            (1, 0, 1),
            "minecraft:repeater[delay=1,facing=west,locked=false,powered=true]",
        ),
        tile(
            (2, 0, 1),
            "minecraft:repeater[delay=2,facing=north,locked=true,powered=false]",
        ),
    ]);
    let (w, layout) = World::build(&m, &palette()).ok().unwrap();
    let node = |i: usize| layout[i][0].can_output_node().unwrap();
    assert_eq!(
        links(&w),
        vec![
            (node(0), node(1), Edge::Rear(0)),
            (node(1), node(2), Edge::Side(0)),
        ]
    );
    assert_eq!(
        w.block(node(2)),
        Some(Block::Repeater(Repeater::new(2, false, true)))
    );
    assert_eq!(w.block(node(1)).unwrap().output_power(), 15);
    assert_eq!(w.block(node(1)), Some(Block::Repeater(Repeater::new(1, true, false))));
    assert_eq!(
        w.block(node(0)).map(|b| b.is_redstone()),
        Some(true)
    );
    let _ = Torch::with_lit(true);
}

#[test]
fn compile_builds_and_prunes() {
    let m = map_of(vec![
        named((0, 0, 0), "minecraft:gold_block", "in"),
        tile(
            (1, 0, 0),
            "minecraft:redstone_wire[east=side,north=none,power=0,south=none,west=side]",
        ),
        tile((2, 0, 0), "minecraft:stone"),
        tile((3, 0, 0), "minecraft:redstone_wall_torch[facing=east,lit=true]"),
        named((3, 1, 0), "minecraft:diamond_block", "not_in"),
    ]);
    let mut world = World::compile(&m, &palette()).ok().unwrap();
    assert_eq!(world.node_count(), 3);
    assert!(world.get_probe("not_in"));
    world.step_with_trigger();
    assert!(!world.get_probe("not_in"));
    let bad = map_of(vec![tile((0, 0, 0), "minecraft:unheard_of")]);
    assert_eq!(World::compile(&bad, &palette()).err(), Some(BuildError::UnknownBlock));
}

#[test]
fn a_redstone_block_holds_the_full_signal() {
    let m = map_of(vec![
        tile((1, 0, 0), "minecraft:redstone_block"),
        tile((2, 0, 0), "minecraft:redstone_wall_torch[facing=east,lit=false]"),
    ]);
    let mut world = World::compile(&m, &palette()).ok().unwrap();
    world.schedule(0);
    world.schedule(1);
    world.step();
    assert_eq!(world.block(0), Some(redstone_source()));
    assert_eq!(world.block(0).unwrap().output_power(), 15);
    for _ in 0..3 {
        world.schedule(0);
        world.step_with_trigger();
        assert_eq!(world.block(0).unwrap().output_power(), 15);
    }
}
