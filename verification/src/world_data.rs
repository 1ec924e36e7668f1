//! The voxel world as the builder of the graph takes it in: a map from
//! positions to tiles.

use crate::facing::Position;
use crate::parse::{chars_of, find_char, range_is, state_name};
use vstd::prelude::*;

verus! {

/// What one voxel holds.
pub struct Tile {
    /// Where the voxel lies.
    pub pos: Position,
    /// The block state of the voxel: the name of its block and, in
    /// square brackets, the properties of the block.
    pub id: String,
    /// The name under which the block is known, for a block that is a
    /// probe or a trigger.
    pub name: String,
    /// The output signal that the voxel has stored, for a comparator.
    pub output_signal: Option<i8>,
}

/// The tiles of a world, one at most for each position.
pub struct TileMap {
    pub tiles: Vec<Tile>,
}

/// Whether two positions are the same.
pub fn same_position(a: Position, b: Position) -> (r: bool)
    ensures
        r == (a == b),
{
    a.0 == b.0 && a.1 == b.1 && a.2 == b.2
}

/// Whether the block of the block state `id` is called `lit`.
pub fn block_is(id: &str, lit: &str) -> (r: bool)
    ensures
        r == (state_name(id@) == lit@),
{
    let chars = chars_of(id);
    let n = chars.len();
    let end = find_char(&chars, 0, n, '[');
    assert(chars@.subrange(0, n as int) =~= chars@);
    assert(chars@.subrange(0, end as int) =~= chars@.take(end as int));
    range_is(&chars, 0, end, lit)
}

impl TileMap {
    /// No two tiles lie at the same position.
    pub open spec fn wf(&self) -> bool {
        forall|i: int, j: int|
            0 <= i < self.tiles@.len() && 0 <= j < self.tiles@.len() && i != j
                ==> self.tiles@[i].pos != self.tiles@[j].pos
    }

    /// Whether the tile at place `i` of the list lies at `pos`.
    pub open spec fn lies_at(&self, i: int, pos: Position) -> bool {
        0 <= i < self.tiles@.len() && self.tiles@[i].pos == pos
    }

    /// Whether a tile lies at `pos`.
    pub open spec fn holds(&self, pos: Position) -> bool {
        exists|i: int| self.lies_at(i, pos)
    }

    /// The place in the list of the tile that lies at `pos`.
    pub open spec fn place_of(&self, pos: Position) -> int
        recommends
            self.holds(pos),
    {
        choose|i: int| self.lies_at(i, pos)
    }

    /// A map without tiles.
    pub fn new() -> (m: TileMap)
        ensures
            m.wf(),
            m.tiles@.len() == 0,
    {
        TileMap { tiles: Vec::new() }
    }

    pub fn len(&self) -> (n: usize)
        ensures
            n == self.tiles@.len(),
    {
        self.tiles.len()
    }

    /// The place in the list of the tile that lies at `pos`, if one
    /// does.
    pub fn find(&self, pos: Position) -> (r: Option<usize>)
        ensures
            r is Some == self.holds(pos),
            r matches Some(i) ==> self.lies_at(i as int, pos),
            self.wf() && self.holds(pos) ==> r == Some(self.place_of(pos) as usize),
    {
        let mut i: usize = 0;
        while i < self.tiles.len()
            invariant
                i <= self.tiles@.len(),
                forall|j: int| 0 <= j < i ==> self.tiles@[j].pos != pos,
            decreases self.tiles@.len() - i,
        {
            if same_position(self.tiles[i].pos, pos) {
                proof {
                    assert(self.lies_at(i as int, pos));
                    if self.wf() {
                        let k = self.place_of(pos);
                        assert(self.lies_at(k, pos));
                        assert(k == i);
                    }
                }
                return Some(i);
            }
            i = i + 1;
        }
        proof {
            assert forall|j: int| !self.lies_at(j, pos) by {}
        }
        None
    }

    /// The tile that lies at `pos`, if one does.
    pub fn get(&self, pos: Position) -> (r: Option<&Tile>)
        ensures
            r is Some == self.holds(pos),
            r matches Some(t) ==> t.pos == pos && exists|i: int|
                self.lies_at(i, pos) && self.tiles@[i] == *t,
    {
        match self.find(pos) {
            Some(i) => Some(&self.tiles[i]),
            None => None,
        }
    }

    /// Puts a tile into the map. A tile that lay at its position gives
    /// way, and the new tile takes its place in the list; else the new
    /// tile comes last.
    pub fn insert(&mut self, tile: Tile)
        requires
            old(self).wf(),
        ensures
            final(self).wf(),
            final(self).holds(tile.pos),
            final(self).tiles@[final(self).place_of(tile.pos)] == tile,
            old(self).holds(tile.pos) ==> final(self).tiles@ == old(self).tiles@.update(
                old(self).place_of(tile.pos),
                tile,
            ),
            !old(self).holds(tile.pos) ==> final(self).tiles@ == old(self).tiles@.push(tile),
    {
        let pos = tile.pos;
        match self.find(pos) {
            Some(i) => {
                self.tiles.set(i, tile);
                proof {
                    assert(self.lies_at(i as int, pos));
                    let k = self.place_of(pos);
                    assert(self.lies_at(k, pos));
                    assert(k == i);
                }
            },
            None => {
                self.tiles.push(tile);
                proof {
                    let last = self.tiles@.len() - 1;
                    assert(self.lies_at(last, pos));
                    assert forall|i: int, j: int|
                        0 <= i < self.tiles@.len() && 0 <= j < self.tiles@.len() && i
                            != j implies self.tiles@[i].pos != self.tiles@[j].pos by {
                        if i == last {
                            assert(!old(self).lies_at(j, pos));
                        }
                        if j == last {
                            assert(!old(self).lies_at(i, pos));
                        }
                    }
                    let k = self.place_of(pos);
                    assert(self.lies_at(k, pos));
                    assert(k == last);
                }
            },
        }
    }
}

} // verus!
