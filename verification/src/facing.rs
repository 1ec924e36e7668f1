//! The six directions of the voxel grid and the geometry built on them.

use vstd::prelude::*;

verus! {

/// A position in the voxel grid.
pub type Position = (usize, usize, usize);

/// One of the six axis-aligned directions.
#[derive(Debug, Copy, Clone, PartialEq, Eq, Structural)]
pub enum Facing {
    North,
    East,
    South,
    West,
    Up,
    Down,
}

/// The coordinate one step up, wrapping at the end of the range.
pub open spec fn step_up(c: usize) -> usize {
    if c == usize::MAX {
        0
    } else {
        (c + 1) as usize
    }
}

/// The coordinate one step down, wrapping at zero.
pub open spec fn step_down(c: usize) -> usize {
    if c == 0 {
        usize::MAX
    } else {
        (c - 1) as usize
    }
}

impl Facing {
    /// Whether the direction lies in the horizontal plane.
    pub open spec fn is_horizontal(self) -> bool {
        self != Facing::Up && self != Facing::Down
    }

    /// The direction a quarter turn clockwise (seen from above).
    pub open spec fn right(self) -> Facing
        recommends
            self.is_horizontal(),
    {
        match self {
            Facing::North => Facing::East,
            Facing::East => Facing::South,
            Facing::South => Facing::West,
            _ => Facing::North,
        }
    }

    /// The direction a quarter turn counter-clockwise (seen from above).
    pub open spec fn left(self) -> Facing
        recommends
            self.is_horizontal(),
    {
        match self {
            Facing::North => Facing::West,
            Facing::West => Facing::South,
            Facing::South => Facing::East,
            _ => Facing::North,
        }
    }

    /// The opposite direction.
    pub open spec fn opposite(self) -> Facing {
        match self {
            Facing::North => Facing::South,
            Facing::East => Facing::West,
            Facing::South => Facing::North,
            Facing::West => Facing::East,
            Facing::Up => Facing::Down,
            Facing::Down => Facing::Up,
        }
    }

    /// The neighbour of `p` one unit in this direction, with wrapping
    /// coordinates.
    pub open spec fn ahead(self, p: Position) -> Position {
        match self {
            Facing::North => (p.0, p.1, step_down(p.2)),
            Facing::East => (step_up(p.0), p.1, p.2),
            Facing::South => (p.0, p.1, step_up(p.2)),
            Facing::West => (step_down(p.0), p.1, p.2),
            Facing::Up => (p.0, step_up(p.1), p.2),
            Facing::Down => (p.0, step_down(p.1), p.2),
        }
    }

    /// Whether the step from `p` in this direction leaves the coordinate
    /// range, so that the neighbour computed by wrapping lies at the far
    /// end of the grid.
    pub open spec fn wraps(self, p: Position) -> bool {
        match self {
            Facing::North => p.2 == 0,
            Facing::East => p.0 == usize::MAX,
            Facing::South => p.2 == usize::MAX,
            Facing::West => p.0 == 0,
            Facing::Up => p.1 == usize::MAX,
            Facing::Down => p.1 == 0,
        }
    }

    pub fn is_flat(self) -> (r: bool)
        ensures
            r == self.is_horizontal(),
    {
        match self {
            Facing::Up | Facing::Down => false,
            _ => true,
        }
    }

    pub fn rotate_left(self) -> (r: Facing)
        requires
            self.is_horizontal(),
        ensures
            r == self.left(),
    {
        self.rotate_right().rotate_right().rotate_right()
    }

    pub fn rotate_right(self) -> (r: Facing)
        requires
            self.is_horizontal(),
        ensures
            r == self.right(),
    {
        match self {
            Facing::North => Facing::East,
            Facing::East => Facing::South,
            Facing::South => Facing::West,
            _ => Facing::North,
        }
    }

    pub fn reverse(self) -> (r: Facing)
        ensures
            r == self.opposite(),
    {
        match self {
            Facing::North => Facing::South,
            Facing::East => Facing::West,
            Facing::South => Facing::North,
            Facing::West => Facing::East,
            Facing::Up => Facing::Down,
            Facing::Down => Facing::Up,
        }
    }

    pub fn front(self, p: Position) -> (r: Position)
        ensures
            r == self.ahead(p),
    {
        let (x, y, z) = p;
        match self {
            Facing::North => (x, y, z.wrapping_sub(1)),
            Facing::East => (x.wrapping_add(1), y, z),
            Facing::South => (x, y, z.wrapping_add(1)),
            Facing::West => (x.wrapping_sub(1), y, z),
            Facing::Up => (x, y.wrapping_add(1), z),
            Facing::Down => (x, y.wrapping_sub(1), z),
        }
    }

    pub fn back(self, p: Position) -> (r: Position)
        ensures
            r == self.opposite().ahead(p),
    {
        self.reverse().front(p)
    }

    /// The six directions, horizontal ones first.
    pub fn all() -> (r: [Facing; 6])
        ensures
            r@ == seq![
                Facing::North,
                Facing::East,
                Facing::South,
                Facing::West,
                Facing::Up,
                Facing::Down,
            ],
            forall|f: Facing| r@.contains(f),
    {
        let r = [
            Facing::North,
            Facing::East,
            Facing::South,
            Facing::West,
            Facing::Up,
            Facing::Down,
        ];
        assert forall|f: Facing| r@.contains(f) by {
            match f {
                Facing::North => assert(r@[0] == f),
                Facing::East => assert(r@[1] == f),
                Facing::South => assert(r@[2] == f),
                Facing::West => assert(r@[3] == f),
                Facing::Up => assert(r@[4] == f),
                Facing::Down => assert(r@[5] == f),
            }
        }
        r
    }
}

/// Reversing a direction twice gives the direction back.
pub proof fn lemma_reverse_involution(f: Facing)
    ensures
        f.opposite().opposite() == f,
{
}

/// A quarter turn to the right undoes a quarter turn to the left, and the
/// other way round; both keep a direction horizontal.
pub proof fn lemma_rotations_inverse(f: Facing)
    requires
        f.is_horizontal(),
    ensures
        f.left().is_horizontal(),
        f.right().is_horizontal(),
        f.left().right() == f,
        f.right().left() == f,
{
}

/// Two quarter turns, in either sense, are a reversal, and four are the
/// identity.
pub proof fn lemma_half_turn(f: Facing)
    requires
        f.is_horizontal(),
    ensures
        f.right().right() == f.opposite(),
        f.left().left() == f.opposite(),
        f.right().right().right().right() == f,
{
}

/// A step back undoes a step forward, and the other way round, for every
/// position: the arithmetic wraps.
pub proof fn lemma_back_undoes_front(f: Facing, p: Position)
    ensures
        f.opposite().ahead(f.ahead(p)) == p,
        f.ahead(f.opposite().ahead(p)) == p,
{
}

/// A step that does not wrap moves exactly one coordinate, by one unit.
pub proof fn lemma_front_is_unit_step(f: Facing, p: Position)
    requires
        !f.wraps(p),
    ensures
        ({
            let q = f.ahead(p);
            vstd::math::abs(q.0 - p.0) + vstd::math::abs(q.1 - p.1) + vstd::math::abs(q.2 - p.2)
                == 1
        }),
{
}

} // verus!
