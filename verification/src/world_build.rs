//! Building a world: the tiles of a voxel world become the nodes of a
//! graph, and the connections between neighbouring voxels its edges.

use crate::blocks::comparator::CComparator;
use crate::blocks::redstone_block::CRedstoneBlock;
use crate::blocks::Block;
use crate::cblock::{BlockConnections, CBlock, CProbe, CTrigger, Palette};
use crate::facing::{Facing, Position};
use crate::graph::{Link, GRAPH_LIMIT};
use crate::merge::holds_link;
use crate::names::{registers, NameTable};
use crate::parse::{state_name, BuildError};
use crate::world::World;
use crate::world_data::{block_is, TileMap};
use crate::world_prune::{added, from_found, link_of, Shortcut};
use vstd::prelude::*;

verus! {

impl CComparator {
    /// This comparator with what the tiles say of it: the signal that
    /// its own tile has stored, and the power of the container behind
    /// it, which is 1 for a furnace and none for all else.
    ///
    /// It is an error if no tile lies at `p` or the tile has no signal
    /// stored, and if the signal is no signal strength.
    pub open spec fn read_tile(&self, p: Position, map: &TileMap) -> Result<
        CComparator,
        BuildError,
    > {
        let behind = self.facing.ahead(p);
        if !map.holds(p) || map.tiles@[map.place_of(p)].output_signal is None {
            Err(BuildError::MissingOutputSignal)
        } else {
            let s = map.tiles@[map.place_of(p)].output_signal->0;
            if s < 0 || s > 15 {
                Err(BuildError::MalformedMetadata)
            } else {
                Ok(
                    CComparator {
                        signal: s as u8,
                        entity_power: if map.holds(behind) && state_name(
                            map.tiles@[map.place_of(behind)].id@,
                        ) == "minecraft:furnace"@ {
                            Some(1u8)
                        } else {
                            None
                        },
                        ..*self
                    },
                )
            }
        }
    }

    /// Takes the signal of the comparator, which lies at `p`, and the
    /// power of the container behind it from the tiles.
    pub fn update_from_tile(&mut self, p: Position, tile_map: &TileMap) -> (r: Result<
        (),
        BuildError,
    >)
        requires
            tile_map.wf(),
        ensures
            match r {
                Ok(_) => old(self).read_tile(p, tile_map) == Ok::<CComparator, BuildError>(
                    *final(self),
                ),
                Err(e) => old(self).read_tile(p, tile_map) == Err::<CComparator, BuildError>(e)
                    && *final(self) == *old(self),
            },
    {
        let s = match tile_map.find(p) {
            None => {
                return Err(BuildError::MissingOutputSignal);
            },
            Some(i) => match tile_map.tiles[i].output_signal {
                None => {
                    return Err(BuildError::MissingOutputSignal);
                },
                Some(s) => s,
            },
        };
        if s < 0 || s > 15 {
            return Err(BuildError::MalformedMetadata);
        }
        let behind = self.facing().front(p);
        let power = match tile_map.find(behind) {
            None => None,
            Some(j) => if block_is(tile_map.tiles[j].id.as_str(), "minecraft:furnace") {
                Some(1u8)
            } else {
                None
            },
        };
        self.signal = s as u8;
        self.entity_power = power;
        Ok(())
    }
}

/// The construction blocks of the tile at place `i`: those of its block
/// state, a comparator with what the tiles say of it.
pub open spec fn planned(palette: &Palette, map: &TileMap, i: int) -> Result<
    Seq<CBlock>,
    BuildError,
> {
    match palette.blocks_of(map.tiles@[i].id@) {
        Err(e) => Err(e),
        Ok(bs) => if bs.len() == 1 && bs[0] is Comparator {
            match bs[0]->Comparator_0.read_tile(map.tiles@[i].pos, map) {
                Ok(c) => Ok(seq![CBlock::Comparator(c)]),
                Err(e) => Err(e),
            }
        } else {
            Ok(bs)
        },
    }
}

/// Whether each block of the row is well formed and has no node.
pub open spec fn fresh_row(row: Seq<CBlock>) -> bool {
    row.len() <= 2 && forall|k: int|
        0 <= k < row.len() ==> (#[trigger] row[k]).wf() && row[k].node_id() is None
}

/// The construction blocks of the tile at place `i`.
pub fn plan_tile(palette: &Palette, map: &TileMap, i: usize) -> (r: Result<Vec<CBlock>, BuildError>)
    requires
        map.wf(),
        i < map.tiles@.len(),
    ensures
        match r {
            Ok(v) => planned(palette, map, i as int) == Ok::<Seq<CBlock>, BuildError>(v@)
                && fresh_row(v@),
            Err(e) => planned(palette, map, i as int) == Err::<Seq<CBlock>, BuildError>(e),
        },
{
    let tile = &map.tiles[i];
    let found = CBlock::from_id(tile.id.as_str(), palette);
    match found {
        Err(e) => Err(e),
        Ok(v) => {
            if v.len() == 1 {
                match v[0] {
                    CBlock::Comparator(c) => {
                        let mut c = c;
                        match c.update_from_tile(tile.pos, map) {
                            Err(e) => Err(e),
                            Ok(_) => {
                                let mut row: Vec<CBlock> = Vec::new();
                                row.push(CBlock::Comparator(c));
                                assert(row@ =~= seq![CBlock::Comparator(c)]);
                                Ok(row)
                            },
                        }
                    },
                    _ => Ok(v),
                }
            } else {
                Ok(v)
            }
        },
    }
}

/// Whether `plan` holds the construction blocks of the first `n` tiles.
pub open spec fn plans(palette: &Palette, map: &TileMap, plan: Seq<Vec<CBlock>>, n: int) -> bool {
    &&& plan.len() == n
    &&& forall|i: int|
        0 <= i < n ==> planned(palette, map, i) == Ok::<Seq<CBlock>, BuildError>(
            (#[trigger] plan[i])@,
        ) && fresh_row(plan[i]@)
}

/// Whether the tile at place `i` is the first whose construction blocks
/// cannot be had, for the reason `e`.
pub open spec fn fails_at(palette: &Palette, map: &TileMap, i: int, e: BuildError) -> bool {
    &&& 0 <= i < map.tiles@.len()
    &&& planned(palette, map, i) == Err::<Seq<CBlock>, BuildError>(e)
    &&& forall|j: int| 0 <= j < i ==> (#[trigger] planned(palette, map, j)) is Ok
}

/// The construction blocks of all tiles, or the error of the first tile
/// that has one.
pub fn plan_all(palette: &Palette, map: &TileMap) -> (r: Result<Vec<Vec<CBlock>>, BuildError>)
    requires
        map.wf(),
    ensures
        match r {
            Ok(plan) => plans(palette, map, plan@, map.tiles@.len() as int),
            Err(e) => exists|i: int| fails_at(palette, map, i, e),
        },
{
    let mut plan: Vec<Vec<CBlock>> = Vec::new();
    let mut i: usize = 0;
    while i < map.len()
        invariant
            i <= map.tiles@.len(),
            map.wf(),
            plans(palette, map, plan@, i as int),
        decreases map.tiles@.len() - i,
    {
        match plan_tile(palette, map, i) {
            Err(e) => {
                assert(fails_at(palette, map, i as int, e)) by {
                    assert forall|j: int| 0 <= j < i implies (#[trigger] planned(
                        palette,
                        map,
                        j,
                    )) is Ok by {
                        assert(planned(palette, map, j) == Ok::<Seq<CBlock>, BuildError>(
                            plan@[j]@,
                        ));
                    }
                }
                return Err(e);
            },
            Ok(row) => {
                let ghost before = plan@;
                plan.push(row);
                assert forall|j: int| 0 <= j < i + 1 implies planned(palette, map, j) == Ok::<
                    Seq<CBlock>,
                    BuildError,
                >((#[trigger] plan@[j])@) && fresh_row(plan@[j]@) by {
                    if j < i {
                        assert(plan@[j] == before[j]);
                    }
                }
            },
        }
        i = i + 1;
    }
    Ok(plan)
}

/// Whether `row` holds the blocks of `plan`, each with a node.
pub open spec fn row_placed(plan: Seq<CBlock>, row: Seq<CBlock>) -> bool {
    &&& row.len() == plan.len()
    &&& forall|k: int|
        0 <= k < row.len() ==> (#[trigger] row[k]).node_id() is Some && row[k]
            == plan[k].placed(row[k].node_id()->0)
}

/// Whether `(i, k)` is the place of a block in the layout.
pub open spec fn in_layout(layout: Seq<Vec<CBlock>>, i: int, k: int) -> bool {
    0 <= i < layout.len() && 0 <= k < layout[i]@.len()
}

/// The block at place `(i, k)` of the layout.
pub open spec fn cell(layout: Seq<Vec<CBlock>>, i: int, k: int) -> CBlock {
    layout[i]@[k]
}

/// Whether `n` is the node of a block of the layout that becomes `b`.
pub open spec fn laid(layout: Seq<Vec<CBlock>>, n: u32, b: Block) -> bool {
    exists|i: int, k: int|
        in_layout(layout, i, k) && #[trigger] cell(layout, i, k).node_id() == Some(n) && cell(
            layout,
            i,
            k,
        ).block() == b
}

/// Whether the nodes of the world are those of the blocks of the
/// layout: each block has a node of its own, with the block of the
/// running circuit that it becomes, and the world has no other node.
pub open spec fn nodes_built(w: &World, layout: Seq<Vec<CBlock>>) -> bool {
    &&& forall|i: int, k: int|
        in_layout(layout, i, k) ==> {
            &&& (#[trigger] cell(layout, i, k)).node_id() is Some
            &&& w.circuit().nodes.contains_key(cell(layout, i, k).node_id()->0)
            &&& w.circuit().nodes[cell(layout, i, k).node_id()->0] == cell(layout, i, k).block()
        }
    &&& forall|n: u32| #[trigger]
        w.circuit().nodes.contains_key(n) ==> laid(layout, n, w.circuit().nodes[n])
    &&& forall|i: int, k: int, j: int, l: int|
        in_layout(layout, i, k) && in_layout(layout, j, l) && (i != j || k != l) ==> (
        #[trigger] cell(layout, i, k)).node_id() != (#[trigger] cell(layout, j, l)).node_id()
}

/// A probe, to stand for its kind.
pub open spec fn probe_kind() -> CBlock {
    CBlock::Probe(CProbe { node: None })
}

/// A trigger, to stand for its kind.
pub open spec fn trigger_kind() -> CBlock {
    CBlock::Trigger(CTrigger { node: None })
}

/// A redstone block, to stand for its kind.
pub open spec fn source_kind() -> CBlock {
    CBlock::RedstoneBlock(CRedstoneBlock { node: None })
}

/// Whether the row at place `i` of the layout is a single block of the
/// kind of `kind`.
pub open spec fn single_of(layout: Seq<Vec<CBlock>>, i: int, kind: CBlock) -> bool {
    &&& 0 <= i < layout.len()
    &&& layout[i]@.len() == 1
    &&& match kind {
        CBlock::Probe(_) => layout[i]@[0] is Probe,
        CBlock::Trigger(_) => layout[i]@[0] is Trigger,
        _ => layout[i]@[0] is RedstoneBlock,
    }
}

/// Whether the table holds the names of the first `upto` tiles whose
/// blocks are of the kind of `kind`: each entry gives the node of such
/// a block the name of its tile, and each such block goes by the name
/// of its tile unless a later one has the same name.
pub open spec fn names_built(
    table: NameTable,
    map: &TileMap,
    layout: Seq<Vec<CBlock>>,
    upto: int,
    kind: CBlock,
) -> bool {
    &&& table.wf()
    &&& forall|n: u32, s: Seq<char>| #[trigger]
        table.pairs(n, s) ==> exists|i: int|
            0 <= i < upto && #[trigger] single_of(layout, i, kind) && layout[i]@[0].node_id()
                == Some(n) && map.tiles@[i].name@ == s
    &&& forall|i: int|
        0 <= i < upto && #[trigger] single_of(layout, i, kind) && (forall|j: int|
            i < j < upto && #[trigger] single_of(layout, j, kind) ==> map.tiles@[j].name@
                != map.tiles@[i].name@) ==> table.pairs(
            layout[i]@[0].node_id()->0,
            map.tiles@[i].name@,
        )
}

impl World {
    /// Gives each block of the row `plan` a node in the graph and
    /// returns the row with the nodes. A probe and a trigger are
    /// registered under the name `name`, a redstone block as a constant
    /// source.
    pub fn place_row(&mut self, plan: &Vec<CBlock>, name: &str) -> (row: Vec<CBlock>)
        requires
            old(self).wf(),
            fresh_row(plan@),
            old(self).circuit().nodes.dom().len() + plan@.len() <= GRAPH_LIMIT,
        ensures
            final(self).wf(),
            row_placed(plan@, row@),
            final(self).circuit().edges == old(self).circuit().edges,
            final(self).updatable == old(self).updatable,
            final(self).tick_counter == old(self).tick_counter,
            final(self).circuit().nodes.dom().len() == old(self).circuit().nodes.dom().len()
                + plan@.len(),
            forall|n: u32| #[trigger]
                old(self).circuit().nodes.contains_key(n)
                    ==> final(self).circuit().nodes.contains_key(n)
                        && final(self).circuit().nodes[n] == old(self).circuit().nodes[n],
            forall|k: int|
                0 <= k < row@.len() ==> !old(self).circuit().nodes.contains_key(
                    (#[trigger] row@[k]).node_id()->0,
                ) && final(self).circuit().nodes.contains_key(row@[k].node_id()->0)
                    && final(self).circuit().nodes[row@[k].node_id()->0] == row@[k].block(),
            forall|k: int, l: int|
                0 <= k < l < row@.len() ==> (#[trigger] row@[k]).node_id() != (
                #[trigger] row@[l]).node_id(),
            forall|n: u32| #[trigger]
                final(self).circuit().nodes.contains_key(n)
                    ==> old(self).circuit().nodes.contains_key(n) || exists|k: int|
                    0 <= k < row@.len() && #[trigger] row@[k].node_id() == Some(n),
            plan@.len() == 1 && plan@[0] is Probe ==> registers(
                old(self).probes,
                final(self).probes,
                row@[0].node_id()->0,
                name@,
            ),
            !(plan@.len() == 1 && plan@[0] is Probe) ==> final(self).probes == old(self).probes,
            plan@.len() == 1 && plan@[0] is Trigger ==> registers(
                old(self).triggers,
                final(self).triggers,
                row@[0].node_id()->0,
                name@,
            ),
            !(plan@.len() == 1 && plan@[0] is Trigger) ==> final(self).triggers
                == old(self).triggers,
            plan@.len() == 1 && plan@[0] is RedstoneBlock ==> final(self).constants@
                == old(self).constants@.push(row@[0].node_id()->0),
            !(plan@.len() == 1 && plan@[0] is RedstoneBlock) ==> final(self).constants
                == old(self).constants,
    {
        let mut row: Vec<CBlock> = Vec::new();
        let mut k: usize = 0;
        while k < plan.len()
            invariant
                k <= plan@.len(),
                self.wf(),
                old(self).wf(),
                fresh_row(plan@),
                old(self).circuit().nodes.dom().len() + plan@.len() <= GRAPH_LIMIT,
                row@.len() == k,
                forall|a: int|
                    0 <= a < k ==> (#[trigger] row@[a]).node_id() is Some && row@[a]
                        == plan@[a].placed(row@[a].node_id()->0),
                self.circuit().edges == old(self).circuit().edges,
                self.updatable == old(self).updatable,
                self.tick_counter == old(self).tick_counter,
                self.circuit().nodes.dom().len() == old(self).circuit().nodes.dom().len() + k,
                forall|n: u32| #[trigger]
                    old(self).circuit().nodes.contains_key(n) ==> self.circuit().nodes.contains_key(
                        n,
                    ) && self.circuit().nodes[n] == old(self).circuit().nodes[n],
                forall|a: int|
                    0 <= a < k ==> !old(self).circuit().nodes.contains_key(
                        (#[trigger] row@[a]).node_id()->0,
                    ) && self.circuit().nodes.contains_key(row@[a].node_id()->0)
                        && self.circuit().nodes[row@[a].node_id()->0] == row@[a].block(),
                forall|a: int, b: int|
                    0 <= a < b < k ==> (#[trigger] row@[a]).node_id() != (
                    #[trigger] row@[b]).node_id(),
                forall|n: u32| #[trigger]
                    self.circuit().nodes.contains_key(n) ==> old(self).circuit().nodes.contains_key(
                        n,
                    ) || exists|a: int| 0 <= a < k && #[trigger] row@[a].node_id() == Some(n),
                (k >= 1 && plan@.len() == 1 && plan@[0] is Probe) ==> registers(
                    old(self).probes,
                    self.probes,
                    row@[0].node_id()->0,
                    name@,
                ),
                !(k >= 1 && plan@.len() == 1 && plan@[0] is Probe) ==> self.probes
                    == old(self).probes,
                (k >= 1 && plan@.len() == 1 && plan@[0] is Trigger) ==> registers(
                    old(self).triggers,
                    self.triggers,
                    row@[0].node_id()->0,
                    name@,
                ),
                !(k >= 1 && plan@.len() == 1 && plan@[0] is Trigger) ==> self.triggers
                    == old(self).triggers,
                (k >= 1 && plan@.len() == 1 && plan@[0] is RedstoneBlock) ==> self.constants@
                    == old(self).constants@.push(row@[0].node_id()->0),
                !(k >= 1 && plan@.len() == 1 && plan@[0] is RedstoneBlock) ==> self.constants
                    == old(self).constants,
            decreases plan@.len() - k,
        {
            let ghost before = *self;
            let ghost row0 = row@;
            let mut c = plan[k];
            assert(plan@[k as int].wf() && plan@[k as int].node_id() is None);
            c.add_node(&mut self.blocks);
            let id = c.can_output_node().unwrap();
            proof {
                let now = self.circuit();
                assert(now.nodes.dom() =~= before.circuit().nodes.dom().insert(id));
                assert(plan@[k as int].block().wf());
                assert forall|e: u32| #[trigger] now.edges.contains_key(e)
                    implies now.nodes.contains_key(
                now.edges[e].source) && now.nodes.contains_key(now.edges[e].target)
                    && now.edges[e].weight.wf() by {
                    assert(before.circuit().edges.contains_key(e));
                }
                assert forall|e: u32| #[trigger]
                    now.edges.contains_key(e) && now.edges[e].weight.side() implies (
                now.nodes[now.edges[e].target] is Repeater
                    || now.nodes[now.edges[e].target] is Comparator) by {
                    assert(before.circuit().edges.contains_key(e));
                }
                assert forall|n: u32| #[trigger] self.registered(n) implies now.nodes.contains_key(
                n) && now.nodes[n] is Redstone by {
                    assert(before.registered(n));
                }
                assert forall|n: u32| #[trigger] self.is_constant(n)
                    implies self.circuit().nodes[n] == crate::blocks::source_block() by {
                    assert(before.is_constant(n));
                    assert(before.registered(n));
                    assert(before.circuit().nodes[n] == crate::blocks::source_block());
                }
                assert(self.wf());
            }
            if plan.len() == 1 {
                match c {
                    CBlock::Probe(_) => {
                        assert(c.block() is Redstone);
                        let ok = self.add_probe(id, name);
                        assert(ok);
                    },
                    CBlock::Trigger(_) => {
                        assert(c.block() is Redstone);
                        let ok = self.add_trigger(id, name);
                        assert(ok);
                    },
                    CBlock::RedstoneBlock(_) => {
                        assert(c.block() is Redstone);
                        let ok = self.add_constant(id);
                        assert(ok);
                    },
                    _ => {},
                }
            }
            row.push(c);
            proof {
                assert forall|a: int| 0 <= a < k + 1 implies (#[trigger] row@[a]).node_id() is Some
                    && row@[a] == plan@[a].placed(row@[a].node_id()->0) by {
                    if a < k {
                        assert(row@[a] == row0[a]);
                    }
                }
                assert forall|a: int| 0 <= a < k
                    + 1 implies !old(self).circuit().nodes.contains_key((
                        #[trigger] row@[a]).node_id()->0)
                    && self.circuit().nodes.contains_key(row@[a].node_id()->0)
                    && self.circuit().nodes[row@[a].node_id()->0] == row@[a].block() by {
                    if a < k {
                        assert(row@[a] == row0[a]);
                    }
                }
                assert forall|a: int, b: int| 0 <= a < b < k + 1 implies (
                #[trigger] row@[a]).node_id() != (#[trigger] row@[b]).node_id() by {
                    assert(row@[a] == row0[a]);
                    if b < k {
                        assert(row@[b] == row0[b]);
                    }
                }
                assert forall|n: u32| #[trigger] self.circuit().nodes.contains_key(n)
                    implies old(self).circuit().nodes.contains_key(n) || exists|a: int|
                    0 <= a < k + 1 && #[trigger] row@[a].node_id() == Some(n) by {
                    if n == id {
                        assert(row@[k as int].node_id() == Some(n));
                    } else {
                        assert(before.circuit().nodes.contains_key(n));
                        if !old(self).circuit().nodes.contains_key(n) {
                            let a = choose|a: int|
                                0 <= a < k && #[trigger] row0[a].node_id() == Some(n);
                            assert(row@[a].node_id() == Some(n));
                        }
                    }
                }
            }
            k = k + 1;
        }
        row
    }
}

/// Whether the constant sources are the nodes of the redstone blocks of
/// the first `upto` tiles.
pub open spec fn sources_built(w: &World, layout: Seq<Vec<CBlock>>, upto: int) -> bool {
    forall|n: u32|
        w.is_constant(n) <==> exists|i: int|
            0 <= i < upto && #[trigger] single_of(layout, i, source_kind())
                && layout[i]@[0].node_id() == Some(n)
}

impl World {
    /// Gives each block of the plan a node in the graph of this world,
    /// which has none yet, and returns the blocks with their nodes.
    /// Probes and triggers are registered under the names of their
    /// tiles, redstone blocks as constant sources.
    pub fn place_all(&mut self, map: &TileMap, plan: &Vec<Vec<CBlock>>) -> (layout: Vec<
        Vec<CBlock>,
    >)
        requires
            old(self).wf(),
            old(self).circuit().nodes.dom().len() == 0,
            old(self).probes.entries@.len() == 0,
            old(self).triggers.entries@.len() == 0,
            old(self).constants@.len() == 0,
            plan@.len() == map.tiles@.len(),
            forall|i: int| 0 <= i < plan@.len() ==> fresh_row((#[trigger] plan@[i])@),
            2 * plan@.len() <= GRAPH_LIMIT,
        ensures
            final(self).wf(),
            final(self).circuit().edges == old(self).circuit().edges,
            final(self).updatable == old(self).updatable,
            final(self).tick_counter == old(self).tick_counter,
            layout@.len() == plan@.len(),
            forall|i: int|
                0 <= i < layout@.len() ==> row_placed(plan@[i]@, (#[trigger] layout@[i])@),
            nodes_built(final(self), layout@),
            names_built(final(self).probes, map, layout@, layout@.len() as int, probe_kind()),
            names_built(final(self).triggers, map, layout@, layout@.len() as int, trigger_kind()),
            sources_built(final(self), layout@, layout@.len() as int),
    {
        let mut layout: Vec<Vec<CBlock>> = Vec::new();
        let mut i: usize = 0;
        proof {
            assert forall|n: u32| !self.circuit().nodes.contains_key(n) by {
                if self.circuit().nodes.contains_key(n) {
                    assert(self.circuit().nodes.dom().contains(n));
                    assert(self.circuit().nodes.dom().len() != 0);
                }
            }
            assert forall|n: u32, s: Seq<char>| !self.probes.pairs(n, s) by {}
            assert forall|n: u32, s: Seq<char>| !self.triggers.pairs(n, s) by {}
            assert forall|n: u32| !self.is_constant(n) by {}
        }
        while i < plan.len()
            invariant
                i <= plan@.len(),
                plan@.len() == map.tiles@.len(),
                forall|a: int| 0 <= a < plan@.len() ==> fresh_row((#[trigger] plan@[a])@),
                2 * plan@.len() <= GRAPH_LIMIT,
                self.wf(),
                self.circuit().edges == old(self).circuit().edges,
                self.updatable == old(self).updatable,
                self.tick_counter == old(self).tick_counter,
                self.circuit().nodes.dom().len() <= 2 * i,
                layout@.len() == i,
                forall|a: int| 0 <= a < i ==> row_placed(plan@[a]@, (#[trigger] layout@[a])@),
                nodes_built(self, layout@),
                names_built(self.probes, map, layout@, i as int, probe_kind()),
                names_built(self.triggers, map, layout@, i as int, trigger_kind()),
                sources_built(self, layout@, i as int),
            decreases plan@.len() - i,
        {
            let ghost before = *self;
            let ghost rows = layout@;
            assert(fresh_row(plan@[i as int]@));
            let row = self.place_row(&plan[i], map.tiles[i].name.as_str());
            layout.push(row);
            proof {
                let now = layout@;
                let name = map.tiles@[i as int].name@;
                assert forall|a: int, k: int| in_layout(rows, a, k) implies cell(now, a, k)
                    == cell(rows, a, k) by {
                    assert(now[a] == rows[a]);
                }
                assert forall|a: int| 0 <= a < i + 1 implies row_placed(
                    plan@[a]@,
                    (#[trigger] now[a])@,
                ) by {
                    if a < i {
                        assert(now[a] == rows[a]);
                    }
                }
                lemma_row_added(&before, self, rows, now, row@);
                lemma_names_added(
                    before.probes,
                    self.probes,
                    &before,
                    map,
                    rows,
                    now,
                    probe_kind(),
                );
                lemma_names_added(
                    before.triggers,
                    self.triggers,
                    &before,
                    map,
                    rows,
                    now,
                    trigger_kind(),
                );
                assert forall|n: u32|
                    self.is_constant(n) <==> exists|a: int|
                        0 <= a < i + 1 && #[trigger] single_of(now, a, source_kind())
                            && now[a]@[0].node_id() == Some(n) by {
                    let fresh = single_of(now, i as int, source_kind());
                    if self.is_constant(n) {
                        if before.is_constant(n) {
                            let a = choose|a: int|
                                0 <= a < i && #[trigger] single_of(rows, a, source_kind())
                                    && rows[a]@[0].node_id() == Some(n);
                            assert(now[a] == rows[a]);
                            assert(single_of(now, a, source_kind()));
                        } else {
                            assert(fresh);
                            let j = choose|j: int|
                                0 <= j < self.constants@.len() && self.constants@[j] == n;
                            if j < before.constants@.len() {
                                assert(before.constants@[j] == n);
                            }
                            assert(single_of(now, i as int, source_kind()));
                        }
                    }
                    if exists|a: int|
                        0 <= a < i + 1 && #[trigger] single_of(now, a, source_kind())
                            && now[a]@[0].node_id() == Some(n) {
                        let a = choose|a: int|
                            0 <= a < i + 1 && #[trigger] single_of(now, a, source_kind())
                                && now[a]@[0].node_id() == Some(n);
                        if a < i {
                            assert(now[a] == rows[a]);
                            assert(single_of(rows, a, source_kind()));
                            assert(before.is_constant(n));
                            let j = choose|j: int|
                                0 <= j < before.constants@.len() && before.constants@[j] == n;
                            assert(self.constants@[j] == n);
                        } else {
                            assert(self.constants@[self.constants@.len() - 1] == n);
                        }
                    }
                }
            }
            i = i + 1;
        }
        layout
    }
}

/// What placing one more row keeps: the nodes of the world are those of
/// the blocks of the layout.
pub proof fn lemma_row_added(
    before: &World,
    after: &World,
    rows: Seq<Vec<CBlock>>,
    now: Seq<Vec<CBlock>>,
    row: Seq<CBlock>,
)
    requires
        nodes_built(before, rows),
        now.len() == rows.len() + 1,
        forall|a: int| 0 <= a < rows.len() ==> now[a] == rows[a],
        now[rows.len() as int]@ == row,
        forall|k: int| 0 <= k < row.len() ==> (#[trigger] row[k]).node_id() is Some,
        forall|n: u32| #[trigger]
            before.circuit().nodes.contains_key(n) ==> after.circuit().nodes.contains_key(n)
                && after.circuit().nodes[n] == before.circuit().nodes[n],
        forall|k: int|
            0 <= k < row.len() ==> !before.circuit().nodes.contains_key(
                (#[trigger] row[k]).node_id()->0,
            ) && after.circuit().nodes.contains_key(row[k].node_id()->0)
                && after.circuit().nodes[row[k].node_id()->0] == row[k].block(),
        forall|k: int, l: int|
            0 <= k < l < row.len() ==> (#[trigger] row[k]).node_id() != (
            #[trigger] row[l]).node_id(),
        forall|n: u32| #[trigger]
            after.circuit().nodes.contains_key(n) ==> before.circuit().nodes.contains_key(n)
                || exists|k: int| 0 <= k < row.len() && #[trigger] row[k].node_id() == Some(n),
    ensures
        nodes_built(after, now),
{
    let last = rows.len() as int;
    assert forall|i: int, k: int| in_layout(now, i, k) implies (#[trigger] cell(
        now,
        i,
        k,
    )).node_id() is Some && after.circuit().nodes.contains_key(cell(now, i, k).node_id()->0)
        && after.circuit().nodes[cell(now, i, k).node_id()->0] == cell(now, i, k).block() by {
        if i < last {
            assert(in_layout(rows, i, k));
            assert(cell(now, i, k) == cell(rows, i, k));
        } else {
            assert(cell(now, i, k) == row[k]);
        }
    }
    assert forall|n: u32| #[trigger] after.circuit().nodes.contains_key(n) implies laid(
        now,
        n,
        after.circuit().nodes[n],
    ) by {
        if before.circuit().nodes.contains_key(n) {
            assert(laid(rows, n, before.circuit().nodes[n]));
            let (i, k) = choose|i: int, k: int|
                in_layout(rows, i, k) && #[trigger] cell(rows, i, k).node_id() == Some(n) && cell(
                    rows,
                    i,
                    k,
                ).block() == before.circuit().nodes[n];
            assert(in_layout(now, i, k));
            assert(cell(now, i, k) == cell(rows, i, k));
        } else {
            let k = choose|k: int| 0 <= k < row.len() && #[trigger] row[k].node_id() == Some(n);
            assert(in_layout(now, last, k));
            assert(cell(now, last, k) == row[k]);
        }
    }
    assert forall|i: int, k: int, j: int, l: int|
        in_layout(now, i, k) && in_layout(now, j, l) && (i != j || k != l) implies (
    #[trigger] cell(now, i, k)).node_id() != (#[trigger] cell(now, j, l)).node_id() by {
        if i < last {
            assert(in_layout(rows, i, k));
            assert(cell(now, i, k) == cell(rows, i, k));
        } else {
            assert(cell(now, i, k) == row[k]);
        }
        if j < last {
            assert(in_layout(rows, j, l));
            assert(cell(now, j, l) == cell(rows, j, l));
        } else {
            assert(cell(now, j, l) == row[l]);
        }
        if i == last && j == last {
            if k < l {
                assert(row[k].node_id() != row[l].node_id());
            } else {
                assert(row[l].node_id() != row[k].node_id());
            }
        }
    }
}

/// What placing one more row keeps: the table holds the names of the
/// tiles whose blocks are of the kind of `kind`.
pub proof fn lemma_names_added(
    old_table: NameTable,
    new_table: NameTable,
    before: &World,
    map: &TileMap,
    rows: Seq<Vec<CBlock>>,
    now: Seq<Vec<CBlock>>,
    kind: CBlock,
)
    requires
        kind is Probe || kind is Trigger,
        nodes_built(before, rows),
        names_built(old_table, map, rows, rows.len() as int, kind),
        now.len() == rows.len() + 1,
        rows.len() < map.tiles@.len(),
        forall|a: int| 0 <= a < rows.len() ==> now[a] == rows[a],
        single_of(now, rows.len() as int, kind) ==> now[rows.len() as int]@[0].node_id() is Some
            && !before.circuit().nodes.contains_key(now[rows.len() as int]@[0].node_id()->0)
            && registers(
            old_table,
            new_table,
            now[rows.len() as int]@[0].node_id()->0,
            map.tiles@[rows.len() as int].name@,
        ),
        !single_of(now, rows.len() as int, kind) ==> new_table == old_table,
    ensures
        names_built(new_table, map, now, now.len() as int, kind),
{
    let last = rows.len() as int;
    let name = map.tiles@[last].name@;
    assert forall|a: int| 0 <= a < last implies single_of(now, a, kind) == single_of(
        rows,
        a,
        kind,
    ) by {
        assert(now[a] == rows[a]);
    }
    assert forall|n: u32, s: Seq<char>| #[trigger] new_table.pairs(n, s) implies exists|i: int|
        0 <= i < now.len() && #[trigger] single_of(now, i, kind) && now[i]@[0].node_id() == Some(
            n,
        ) && map.tiles@[i].name@ == s by {
        if single_of(now, last, kind) && n == now[last]@[0].node_id()->0 && s == name {
            assert(single_of(now, last, kind) && now[last]@[0].node_id() == Some(n));
        } else {
            assert(old_table.pairs(n, s));
            let i = choose|i: int|
                0 <= i < last && #[trigger] single_of(rows, i, kind) && rows[i]@[0].node_id()
                    == Some(n) && map.tiles@[i].name@ == s;
            assert(now[i] == rows[i]);
            assert(single_of(now, i, kind));
        }
    }
    assert forall|i: int|
        0 <= i < now.len() && #[trigger] single_of(now, i, kind) && (forall|j: int|
            i < j < now.len() && #[trigger] single_of(now, j, kind) ==> map.tiles@[j].name@
                != map.tiles@[i].name@) implies new_table.pairs(
        now[i]@[0].node_id()->0,
        map.tiles@[i].name@,
    ) by {
        if i < last {
            assert(now[i] == rows[i]);
            assert(single_of(rows, i, kind));
            assert forall|j: int|
                i < j < last && #[trigger] single_of(rows, j, kind) implies map.tiles@[j].name@
                != map.tiles@[i].name@ by {
                assert(single_of(now, j, kind));
            }
            assert(old_table.pairs(rows[i]@[0].node_id()->0, map.tiles@[i].name@));
            if single_of(now, last, kind) {
                assert(in_layout(rows, i, 0));
                assert(before.circuit().nodes.contains_key(cell(rows, i, 0).node_id()->0));
                assert(map.tiles@[last].name@ != map.tiles@[i].name@);
            }
        }
    }
}

/// The most tiles that a world can be built from: each gives two nodes
/// at most and twenty-four edges at most.
pub const MAX_TILES: usize = 178_956_970;

/// The edge that leads from the block at place `(i, k)` of the layout
/// to the block at place `l` of the row of its neighbour in direction
/// `f`, if there are such blocks and an edge leads from the one to the
/// other.
pub open spec fn link_at(
    map: &TileMap,
    layout: Seq<Vec<CBlock>>,
    i: int,
    f: Facing,
    k: int,
    l: int,
) -> Option<Link> {
    let to = f.ahead(map.tiles@[i].pos);
    if in_layout(layout, i, k) && i < map.tiles@.len() && map.holds(to) && in_layout(
        layout,
        map.place_of(to),
        l,
    ) {
        cell(layout, i, k).link(cell(layout, map.place_of(to), l), f)
    } else {
        None
    }
}

/// Whether `x` is the edge between two blocks of neighbouring tiles.
pub open spec fn wired(map: &TileMap, layout: Seq<Vec<CBlock>>, x: Link) -> bool {
    exists|i: int, f: Facing, k: int, l: int| #[trigger]
        link_at(map, layout, i, f, k, l) == Some(x)
}

/// Whether `x` is the edge from a block of the tile at place `i` to a
/// block of one of its neighbours.
pub open spec fn wired_from(map: &TileMap, layout: Seq<Vec<CBlock>>, i: int, x: Link) -> bool {
    exists|f: Facing, k: int, l: int| #[trigger] link_at(map, layout, i, f, k, l) == Some(x)
}

/// Whether `x` is the edge from a block of `from` to a block of `to`,
/// which lie in direction `f` from them.
pub open spec fn linked_rows(from: Seq<CBlock>, to: Seq<CBlock>, f: Facing, x: Link) -> bool {
    exists|k: int, l: int|
        0 <= k < from.len() && 0 <= l < to.len() && #[trigger] from[k].link(to[l], f) == Some(x)
}

/// Whether `after` begins with the shortcuts of `before`.
pub open spec fn extends(before: Seq<Shortcut>, after: Seq<Shortcut>) -> bool {
    &&& before.len() <= after.len()
    &&& forall|a: int| 0 <= a < before.len() ==> after[a] == before[a]
}

/// An edge between two blocks of neighbouring tiles can join the
/// circuit of a world whose nodes are those of the layout.
pub proof fn lemma_wired_admits(w: &World, map: &TileMap, layout: Seq<Vec<CBlock>>, x: Link)
    requires
        nodes_built(w, layout),
        wired(map, layout, x),
    ensures
        World::admits(w.circuit(), x.source, x.target, x.weight),
{
    let (i, f, k, l) = choose|i: int, f: Facing, k: int, l: int| #[trigger]
        link_at(map, layout, i, f, k, l) == Some(x);
    let j = map.place_of(f.ahead(map.tiles@[i].pos));
    assert(in_layout(layout, i, k) && in_layout(layout, j, l));
    let a = cell(layout, i, k);
    let b = cell(layout, j, l);
    assert(a.link(b, f) == Some(x));
    assert(w.circuit().nodes[b.node_id()->0] == b.block());
}

/// Puts the edges from the blocks of `from` to the blocks of `to`,
/// which lie in direction `f` from them, onto `out`.
fn links_between(from: &Vec<CBlock>, to: &Vec<CBlock>, f: Facing, out: &mut Vec<Shortcut>)
    requires
        from@.len() <= 2,
        to@.len() <= 2,
    ensures
        extends(old(out)@, final(out)@),
        final(out)@.len() <= old(out)@.len() + 4,
        forall|k: int, l: int|
            0 <= k < from@.len() && 0 <= l < to@.len() && (#[trigger] from@[k].link(to@[l], f))
                is Some ==> from_found(
                final(out)@,
                final(out)@.len() as int,
                from@[k].link(to@[l], f)->0,
            ),
        forall|a: int|
            old(out)@.len() <= a < final(out)@.len() ==> linked_rows(
                from@,
                to@,
                f,
                link_of(#[trigger] final(out)@[a]),
            ),
{
    let ghost start = out@;
    let mut k: usize = 0;
    while k < from.len()
        invariant
            k <= from@.len(),
            from@.len() <= 2,
            to@.len() <= 2,
            extends(start, out@),
            out@.len() <= start.len() + 2 * k,
            forall|a: int, l: int|
                0 <= a < k && 0 <= l < to@.len() && (#[trigger] from@[a].link(to@[l], f)) is Some
                    ==> from_found(out@, out@.len() as int, from@[a].link(to@[l], f)->0),
            forall|a: int|
                start.len() <= a < out@.len() ==> linked_rows(
                    from@,
                    to@,
                    f,
                    link_of(#[trigger] out@[a]),
                ),
        decreases from@.len() - k,
    {
        let mut l: usize = 0;
        let ghost mid = out@;
        while l < to.len()
            invariant
                l <= to@.len(),
                k < from@.len(),
                from@.len() <= 2,
                to@.len() <= 2,
                extends(start, out@),
                extends(mid, out@),
                out@.len() <= mid.len() + l,
                forall|b: int|
                    0 <= b < l && (#[trigger] from@[k as int].link(to@[b], f)) is Some
                        ==> from_found(out@, out@.len() as int, from@[k as int].link(to@[b], f)->0),
                forall|a: int|
                    start.len() <= a < out@.len() ==> linked_rows(
                        from@,
                        to@,
                        f,
                        link_of(#[trigger] out@[a]),
                    ),
            decreases to@.len() - l,
        {
            let ghost before = out@;
            match from[k].link_to(&to[l], f) {
                None => {},
                Some(x) => {
                    out.push(Shortcut { source: x.source, target: x.target, weight: x.weight });
                    proof {
                        let last = out@.len() - 1;
                        assert(link_of(out@[last]) == x);
                    }
                },
            }
            proof {
                assert forall|b: int|
                    0 <= b < l + 1 && (#[trigger] from@[k as int].link(to@[b], f))
                        is Some implies from_found(
                    out@,
                    out@.len() as int,
                    from@[k as int].link(to@[b], f)->0,
                ) by {
                    let x = from@[k as int].link(to@[b], f)->0;
                    if b < l {
                        assert(from_found(before, before.len() as int, x));
                        let a = choose|a: int|
                            0 <= a < before.len() && link_of(before[a]) == x;
                        assert(link_of(out@[a]) == x);
                    } else {
                        assert(link_of(out@[out@.len() - 1]) == x);
                    }
                }
                assert forall|a: int| start.len() <= a < out@.len() implies linked_rows(
                    from@,
                    to@,
                    f,
                    link_of(#[trigger] out@[a]),
                ) by {
                    if a < before.len() {
                        assert(out@[a] == before[a]);
                    } else {
                        assert(from@[k as int].link(to@[l as int], f) == Some(link_of(out@[a])));
                    }
                }
            }
            l = l + 1;
        }
        proof {
            assert forall|a: int, l: int|
                0 <= a < k + 1 && 0 <= l < to@.len() && (#[trigger] from@[a].link(to@[l], f))
                    is Some implies from_found(
                out@,
                out@.len() as int,
                from@[a].link(to@[l], f)->0,
            ) by {
                let x = from@[a].link(to@[l], f)->0;
                if a < k {
                    assert(from_found(mid, mid.len() as int, x));
                    let z = choose|z: int| 0 <= z < mid.len() && link_of(mid[z]) == x;
                    assert(link_of(out@[z]) == x);
                }
            }
        }
        k = k + 1;
    }
}

/// Puts the edges from the blocks of the tile at place `i` to the
/// blocks of its six neighbours onto `out`.
fn links_of_tile(map: &TileMap, layout: &Vec<Vec<CBlock>>, i: usize, out: &mut Vec<Shortcut>)
    requires
        map.wf(),
        layout@.len() == map.tiles@.len(),
        i < layout@.len(),
        forall|a: int| 0 <= a < layout@.len() ==> (#[trigger] layout@[a])@.len() <= 2,
    ensures
        extends(old(out)@, final(out)@),
        final(out)@.len() <= old(out)@.len() + 24,
        forall|f: Facing, k: int, l: int|
            (#[trigger] link_at(map, layout@, i as int, f, k, l)) is Some ==> from_found(
                final(out)@,
                final(out)@.len() as int,
                link_at(map, layout@, i as int, f, k, l)->0,
            ),
        forall|a: int|
            old(out)@.len() <= a < final(out)@.len() ==> wired_from(
                map,
                layout@,
                i as int,
                link_of(#[trigger] final(out)@[a]),
            ),
{
    let ghost start = out@;
    let all = Facing::all();
    let mut d: usize = 0;
    while d < 6
        invariant
            d <= 6,
            all@.len() == 6,
            forall|f: Facing| all@.contains(f),
            map.wf(),
            layout@.len() == map.tiles@.len(),
            i < layout@.len(),
            forall|a: int| 0 <= a < layout@.len() ==> (#[trigger] layout@[a])@.len() <= 2,
            extends(start, out@),
            out@.len() <= start.len() + 4 * d,
            forall|c: int, k: int, l: int|
                0 <= c < d && (#[trigger] link_at(map, layout@, i as int, all@[c], k, l)) is Some
                    ==> from_found(
                    out@,
                    out@.len() as int,
                    link_at(map, layout@, i as int, all@[c], k, l)->0,
                ),
            forall|a: int|
                start.len() <= a < out@.len() ==> wired_from(
                    map,
                    layout@,
                    i as int,
                    link_of(#[trigger] out@[a]),
                ),
        decreases 6 - d,
    {
        let f = all[d];
        let ghost before = out@;
        let at = f.front(map.tiles[i].pos);
        match map.find(at) {
            None => {},
            Some(j) => {
                assert(layout@[i as int]@.len() <= 2);
                assert(layout@[j as int]@.len() <= 2);
                links_between(&layout[i], &layout[j], f, out);
                proof {
                    assert(j == map.place_of(at));
                    assert forall|a: int| before.len() <= a < out@.len() implies wired_from(
                        map,
                        layout@,
                        i as int,
                        link_of(#[trigger] out@[a]),
                    ) by {
                        assert(linked_rows(
                            layout@[i as int]@,
                            layout@[j as int]@,
                            f,
                            link_of(out@[a]),
                        ));
                        let (k, l) = choose|k: int, l: int|
                            0 <= k < layout@[i as int]@.len() && 0 <= l < layout@[j as int]@.len()
                                && #[trigger] layout@[i as int]@[k].link(layout@[j as int]@[l], f)
                                == Some(link_of(out@[a]));
                        assert(link_at(map, layout@, i as int, f, k, l) == Some(link_of(out@[a])));
                    }
                }
            },
        }
        proof {
            assert forall|a: int| start.len() <= a < out@.len() implies wired_from(
                map,
                layout@,
                i as int,
                link_of(#[trigger] out@[a]),
            ) by {
                if a < before.len() {
                    assert(out@[a] == before[a]);
                }
            }
            assert forall|c: int, k: int, l: int|
                0 <= c < d + 1 && (#[trigger] link_at(map, layout@, i as int, all@[c], k, l))
                    is Some implies from_found(
                out@,
                out@.len() as int,
                link_at(map, layout@, i as int, all@[c], k, l)->0,
            ) by {
                let x = link_at(map, layout@, i as int, all@[c], k, l)->0;
                if c < d {
                    assert(from_found(before, before.len() as int, x));
                    let z = choose|z: int| 0 <= z < before.len() && link_of(before[z]) == x;
                    assert(link_of(out@[z]) == x);
                } else {
                    let j = map.place_of(at);
                    assert(map.holds(at));
                    assert(layout@[i as int]@[k].link(layout@[j]@[l], f) is Some);
                }
            }
        }
        d = d + 1;
    }
    proof {
        assert forall|f: Facing, k: int, l: int|
            (#[trigger] link_at(map, layout@, i as int, f, k, l)) is Some implies from_found(
            out@,
            out@.len() as int,
            link_at(map, layout@, i as int, f, k, l)->0,
        ) by {
            assert(all@.contains(f));
            let c = choose|c: int| 0 <= c < all@.len() && all@[c] == f;
            assert(link_at(map, layout@, i as int, all@[c], k, l) is Some);
        }
    }
}

/// The edges between the blocks of neighbouring tiles.
pub fn collect_links(map: &TileMap, layout: &Vec<Vec<CBlock>>) -> (out: Vec<Shortcut>)
    requires
        map.wf(),
        layout@.len() == map.tiles@.len(),
        forall|a: int| 0 <= a < layout@.len() ==> (#[trigger] layout@[a])@.len() <= 2,
    ensures
        out@.len() <= 24 * layout@.len(),
        forall|i: int, f: Facing, k: int, l: int|
            (#[trigger] link_at(map, layout@, i, f, k, l)) is Some ==> from_found(
                out@,
                out@.len() as int,
                link_at(map, layout@, i, f, k, l)->0,
            ),
        forall|a: int| 0 <= a < out@.len() ==> wired(map, layout@, link_of(#[trigger] out@[a])),
{
    let mut out: Vec<Shortcut> = Vec::new();
    let mut i: usize = 0;
    while i < layout.len()
        invariant
            i <= layout@.len(),
            map.wf(),
            layout@.len() == map.tiles@.len(),
            forall|a: int| 0 <= a < layout@.len() ==> (#[trigger] layout@[a])@.len() <= 2,
            out@.len() <= 24 * i,
            forall|c: int, f: Facing, k: int, l: int|
                0 <= c < i && (#[trigger] link_at(map, layout@, c, f, k, l)) is Some
                    ==> from_found(out@, out@.len() as int, link_at(map, layout@, c, f, k, l)->0),
            forall|a: int| 0 <= a < out@.len() ==> wired(map, layout@, link_of(#[trigger] out@[a])),
        decreases layout@.len() - i,
    {
        let ghost before = out@;
        links_of_tile(map, layout, i, &mut out);
        proof {
            assert forall|a: int| 0 <= a < out@.len() implies wired(
                map,
                layout@,
                link_of(#[trigger] out@[a]),
            ) by {
                if a < before.len() {
                    assert(out@[a] == before[a]);
                } else {
                    assert(wired_from(map, layout@, i as int, link_of(out@[a])));
                    let (f, k, l) = choose|f: Facing, k: int, l: int| #[trigger]
                        link_at(map, layout@, i as int, f, k, l) == Some(link_of(out@[a]));
                    assert(link_at(map, layout@, i as int, f, k, l) == Some(link_of(out@[a])));
                }
            }
            assert forall|c: int, f: Facing, k: int, l: int|
                0 <= c < i + 1 && (#[trigger] link_at(map, layout@, c, f, k, l))
                    is Some implies from_found(
                out@,
                out@.len() as int,
                link_at(map, layout@, c, f, k, l)->0,
            ) by {
                let x = link_at(map, layout@, c, f, k, l)->0;
                if c < i {
                    assert(from_found(before, before.len() as int, x));
                    let z = choose|z: int| 0 <= z < before.len() && link_of(before[z]) == x;
                    assert(link_of(out@[z]) == x);
                }
            }
        }
        i = i + 1;
    }
    proof {
        assert forall|i: int, f: Facing, k: int, l: int|
            (#[trigger] link_at(map, layout@, i, f, k, l)) is Some implies from_found(
            out@,
            out@.len() as int,
            link_at(map, layout@, i, f, k, l)->0,
        ) by {
            assert(in_layout(layout@, i, k));
        }
    }
    out
}

/// Whether the world `w` is what the tiles of `map` build, with
/// `layout` for the construction blocks of each tile: the blocks are
/// those of the tiles, each with a node; the nodes of the world are
/// those of the blocks; its edges are those between the blocks of
/// neighbouring tiles; its probes and triggers go by the names of their
/// tiles, and its constant sources are its redstone blocks; and no node
/// waits to be looked at.
pub open spec fn built(
    palette: &Palette,
    map: &TileMap,
    layout: Seq<Vec<CBlock>>,
    w: &World,
) -> bool {
    &&& layout.len() == map.tiles@.len()
    &&& forall|i: int|
        0 <= i < layout.len() ==> (#[trigger] planned(palette, map, i)) is Ok && row_placed(
            planned(palette, map, i)->Ok_0,
            layout[i]@,
        )
    &&& nodes_built(w, layout)
    &&& forall|e: u32| #[trigger]
        w.circuit().edges.contains_key(e) ==> wired(map, layout, w.circuit().edges[e])
    &&& forall|i: int, f: Facing, k: int, l: int|
        (#[trigger] link_at(map, layout, i, f, k, l)) is Some ==> holds_link(
            w.circuit().edges,
            link_at(map, layout, i, f, k, l)->0,
        )
    &&& names_built(w.probes, map, layout, layout.len() as int, probe_kind())
    &&& names_built(w.triggers, map, layout, layout.len() as int, trigger_kind())
    &&& sources_built(w, layout, layout.len() as int)
    &&& w.updatable@.len() == 0
    &&& w.tick_counter == 0
}

impl World {
    /// Builds a world from the tiles of a voxel world, and returns it
    /// with the construction blocks of each tile.
    ///
    /// No world is built from more than `MAX_TILES` tiles, nor from
    /// tiles of which one has a block state that cannot be read, that
    /// names no known block, or that does not describe its block, or is
    /// a comparator without a stored signal; the error is that of the
    /// first such tile.
    pub fn build(map: &TileMap, palette: &Palette) -> (r: Result<
        (World, Vec<Vec<CBlock>>),
        BuildError,
    >)
        requires
            map.wf(),
        ensures
            match r {
                Ok((w, layout)) => w.wf() && built(palette, map, layout@, &w) && map.tiles@.len()
                    <= MAX_TILES,
                Err(e) => if map.tiles@.len() > MAX_TILES {
                    e == BuildError::TooLarge
                } else {
                    exists|i: int| fails_at(palette, map, i, e)
                },
            },
    {
        if map.len() > MAX_TILES {
            return Err(BuildError::TooLarge);
        }
        let plan = match plan_all(palette, map) {
            Ok(plan) => plan,
            Err(e) => {
                return Err(e);
            },
        };
        let mut w = World::new();
        proof {
            assert(w.circuit().nodes.dom() =~= Set::empty());
            assert(w.circuit().edges.dom() =~= Set::empty());
        }
        let layout = w.place_all(map, &plan);
        let ghost placed = w;
        proof {
            assert forall|a: int| 0 <= a < layout@.len() implies (#[trigger] layout@[a])@.len()
                <= 2 by {
                assert(row_placed(plan@[a]@, layout@[a]@));
                assert(fresh_row(plan@[a]@));
            }
        }
        let links = collect_links(map, &layout);
        proof {
            assert forall|a: int| 0 <= a < links@.len() implies World::admits(
                w.circuit(),
                (#[trigger] links@[a]).source,
                links@[a].target,
                links@[a].weight,
            ) by {
                lemma_wired_admits(&w, map, layout@, link_of(links@[a]));
            }
            assert(w.circuit().edges.dom().len() == 0);
        }
        w.add_shortcuts(&links);
        proof {
            assert forall|i: int| 0 <= i < layout@.len() implies (#[trigger] planned(
                palette,
                map,
                i,
            )) is Ok && row_placed(planned(palette, map, i)->Ok_0, layout@[i]@) by {
                assert(planned(palette, map, i) == Ok::<Seq<CBlock>, BuildError>(plan@[i]@));
                assert(row_placed(plan@[i]@, layout@[i]@));
            }
            assert forall|e: u32| #[trigger] w.circuit().edges.contains_key(e) implies wired(
                map,
                layout@,
                w.circuit().edges[e],
            ) by {
                assert(!placed.circuit().edges.contains_key(e));
                assert(from_found(links@, links@.len() as int, w.circuit().edges[e]));
                let a = choose|a: int|
                    0 <= a < links@.len() && link_of(links@[a]) == w.circuit().edges[e];
                assert(wired(map, layout@, link_of(links@[a])));
            }
            assert forall|i: int, f: Facing, k: int, l: int|
                (#[trigger] link_at(map, layout@, i, f, k, l)) is Some implies holds_link(
                w.circuit().edges,
                link_at(map, layout@, i, f, k, l)->0,
            ) by {
                let x = link_at(map, layout@, i, f, k, l)->0;
                assert(from_found(links@, links@.len() as int, x));
                let a = choose|a: int| 0 <= a < links@.len() && link_of(links@[a]) == x;
                assert(added(placed.circuit().edges, w.circuit().edges, link_of(links@[a])));
            }
            assert(nodes_built(&w, layout@)) by {
                assert(w.circuit().nodes == placed.circuit().nodes);
            }
            assert(sources_built(&w, layout@, layout@.len() as int)) by {
                assert(w.constants == placed.constants);
                assert forall|n: u32| w.is_constant(n) == placed.is_constant(n) by {}
                assert(sources_built(&placed, layout@, layout@.len() as int));
            }
        }
        Ok((w, layout))
    }

    /// Builds a world from the tiles of a voxel world.
    pub fn from_tiles(map: &TileMap, palette: &Palette) -> (r: Result<World, BuildError>)
        requires
            map.wf(),
        ensures
            r matches Ok(w) ==> w.wf() && map.tiles@.len() <= MAX_TILES && exists|
                layout: Seq<Vec<CBlock>>,
            | #[trigger] built(palette, map, layout, &w),
            r matches Err(e) ==> (if map.tiles@.len() > MAX_TILES {
                e == BuildError::TooLarge
            } else {
                exists|i: int| fails_at(palette, map, i, e)
            }),
    {
        match World::build(map, palette) {
            Ok(pair) => {
                let ghost layout = pair.1@;
                let w = pair.0;
                assert(exists|layout: Seq<Vec<CBlock>>| #[trigger] built(palette, map, layout, &w));
                Ok(w)
            },
            Err(e) => Err(e),
        }
    }

    /// Whether `w` is the world that the tiles of `map` build, pruned:
    /// `b` is what they build, with `layout` for the construction
    /// blocks of each tile, and pruning leads from `b` to `w`.
    pub open spec fn compiled(
        palette: &Palette,
        map: &TileMap,
        layout: Seq<Vec<CBlock>>,
        b: &World,
        w: &World,
    ) -> bool {
        b.wf() && built(palette, map, layout, b) && w.pruned(b)
    }

    /// Whether `b` is the world that the tiles of `map` build, with
    /// `layout` for the construction blocks of each tile, and has no
    /// room for the edges that take the place of its wire.
    pub open spec fn overfull(
        palette: &Palette,
        map: &TileMap,
        layout: Seq<Vec<CBlock>>,
        b: &World,
    ) -> bool {
        b.wf() && built(palette, map, layout, b) && !b.fits()
    }

    /// Builds a world from the tiles of a voxel world and prunes its
    /// graph.
    ///
    /// The errors are those of building, and `TooLarge` when the graph
    /// that the tiles build has no room for the edges that take the
    /// place of its wire.
    pub fn compile(map: &TileMap, palette: &Palette) -> (r: Result<World, BuildError>)
        requires
            map.wf(),
        ensures
            r matches Ok(w) ==> w.wf() && exists|b: World, layout: Seq<Vec<CBlock>>| #[trigger]
                Self::compiled(palette, map, layout, &b, &w),
            r matches Err(e) ==> (if map.tiles@.len() > MAX_TILES {
                e == BuildError::TooLarge
            } else {
                (exists|i: int| fails_at(palette, map, i, e)) || (e == BuildError::TooLarge
                    && exists|b: World, layout: Seq<Vec<CBlock>>| #[trigger]
                    Self::overfull(palette, map, layout, &b))
            }),
    {
        match World::build(map, palette) {
            Err(e) => Err(e),
            Ok(pair) => {
                let ghost layout = pair.1@;
                let mut w = pair.0;
                let ghost b = w;
                match w.prune_graph() {
                    Ok(_) => {
                        assert(Self::compiled(palette, map, layout, &b, &w));
                        Ok(w)
                    },
                    Err(e) => {
                        assert(Self::overfull(palette, map, layout, &b));
                        Err(e)
                    },
                }
            },
        }
    }
}

} // verus!
