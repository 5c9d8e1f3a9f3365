//! The six directions of a hexagonal grid and the neighbour relation they
//! induce on offset coordinates.

use vstd::prelude::*;
use crate::types::{MInt, MapPos};

verus! {

/// One of the six directions in which a tile has a neighbour.
///
/// The order of the variants is the order in which neighbours are visited.
#[derive(Clone, Copy, Debug, PartialEq, Eq, Structural, Hash)]
pub enum Dir {
    SouthEast,
    East,
    NorthEast,
    NorthWest,
    West,
    SouthWest,
}

impl Dir {
    /// The position of the direction in the visiting order, from 0 to 5.
    pub open spec fn index(self) -> int {
        match self {
            Dir::SouthEast => 0,
            Dir::East => 1,
            Dir::NorthEast => 2,
            Dir::NorthWest => 3,
            Dir::West => 4,
            Dir::SouthWest => 5,
        }
    }

    /// The direction at position `n` of the visiting order.
    pub open spec fn of_index(n: int) -> Dir {
        if n == 0 {
            Dir::SouthEast
        } else if n == 1 {
            Dir::East
        } else if n == 2 {
            Dir::NorthEast
        } else if n == 3 {
            Dir::NorthWest
        } else if n == 4 {
            Dir::West
        } else {
            Dir::SouthWest
        }
    }

    /// The direction that leads back: from the neighbour to the tile.
    pub open spec fn opposite(self) -> Dir {
        match self {
            Dir::SouthEast => Dir::NorthWest,
            Dir::East => Dir::West,
            Dir::NorthEast => Dir::SouthWest,
            Dir::NorthWest => Dir::SouthEast,
            Dir::West => Dir::East,
            Dir::SouthWest => Dir::NorthEast,
        }
    }

    /// The change of the column when stepping from a tile in an even row
    /// (`odd_row == false`) or an odd row in this direction.
    pub open spec fn dx(self, odd_row: bool) -> int {
        match self {
            Dir::SouthEast => if odd_row { 0 } else { 1 },
            Dir::East => 1,
            Dir::NorthEast => if odd_row { 0 } else { 1 },
            Dir::NorthWest => if odd_row { -1 } else { 0 },
            Dir::West => -1,
            Dir::SouthWest => if odd_row { -1 } else { 0 },
        }
    }

    /// The change of the row when stepping in this direction.
    pub open spec fn dy(self) -> int {
        match self {
            Dir::SouthEast => -1,
            Dir::East => 0,
            Dir::NorthEast => 1,
            Dir::NorthWest => 1,
            Dir::West => 0,
            Dir::SouthWest => -1,
        }
    }

    /// The tile next to `pos` in direction `dir`.
    pub open spec fn neighbour(pos: MapPos, dir: Dir) -> MapPos {
        MapPos {
            x: (pos.x + dir.dx(pos.in_odd_row())) as MInt,
            y: (pos.y + dir.dy()) as MInt,
        }
    }

    /// `to` is one of the six neighbours of `from`.
    pub open spec fn adjacent(from: MapPos, to: MapPos) -> bool {
        exists|d: Dir| #[trigger] Dir::neighbour(from, d) == to
    }

    /// The direction in which `to` lies seen from its neighbour `from`.
    pub open spec fn between(from: MapPos, to: MapPos) -> Dir {
        choose|d: Dir| #[trigger] Dir::neighbour(from, d) == to
    }

    /// The direction at position `n` of the visiting order.
    pub fn from_int(n: MInt) -> (dir: Dir)
        requires
            0 <= n < 6,
        ensures
            dir == Dir::of_index(n as int),
            dir.index() == n,
    {
        if n == 0 {
            Dir::SouthEast
        } else if n == 1 {
            Dir::East
        } else if n == 2 {
            Dir::NorthEast
        } else if n == 3 {
            Dir::NorthWest
        } else if n == 4 {
            Dir::West
        } else {
            Dir::SouthWest
        }
    }

    /// The position of the direction in the visiting order.
    pub fn to_int(&self) -> (n: MInt)
        ensures
            n == self.index(),
            0 <= n < 6,
    {
        match *self {
            Dir::SouthEast => 0,
            Dir::East => 1,
            Dir::NorthEast => 2,
            Dir::NorthWest => 3,
            Dir::West => 4,
            Dir::SouthWest => 5,
        }
    }

    /// The direction that leads back.
    pub fn inverse(&self) -> (dir: Dir)
        ensures
            dir == self.opposite(),
    {
        match *self {
            Dir::SouthEast => Dir::NorthWest,
            Dir::East => Dir::West,
            Dir::NorthEast => Dir::SouthWest,
            Dir::NorthWest => Dir::SouthEast,
            Dir::West => Dir::East,
            Dir::SouthWest => Dir::NorthEast,
        }
    }

    /// The tile next to `pos` in direction `dir`. The result may lie off
    /// the board: the caller tests that before using it as a tile.
    pub fn get_neighbour_pos(pos: MapPos, dir: Dir) -> (next: MapPos)
        requires
            pos.has_room(),
        ensures
            next == Dir::neighbour(pos, dir),
    {
        let odd_row = pos.y % 2 != 0;
        let (dx, dy): (MInt, MInt) = match dir {
            Dir::SouthEast => (if odd_row { 0 } else { 1 }, -1),
            Dir::East => (1, 0),
            Dir::NorthEast => (if odd_row { 0 } else { 1 }, 1),
            Dir::NorthWest => (if odd_row { -1 } else { 0 }, 1),
            Dir::West => (-1, 0),
            Dir::SouthWest => (if odd_row { -1 } else { 0 }, -1),
        };
        MapPos { x: pos.x + dx, y: pos.y + dy }
    }

    /// The direction in which `to` lies seen from its neighbour `from`.
    pub fn get_dir_from_to(from: MapPos, to: MapPos) -> (dir: Dir)
        requires
            from.has_room(),
            Dir::adjacent(from, to),
        ensures
            Dir::neighbour(from, dir) == to,
            dir == Dir::between(from, to),
    {
        proof {
            lemma_between(from, to);
        }
        let mut n: MInt = 0;
        while n < 5
            invariant
                0 <= n <= 5,
                from.has_room(),
                exists|d: Dir| n <= d.index() && #[trigger] Dir::neighbour(from, d) == to,
            decreases 5 - n,
        {
            let dir = Dir::from_int(n);
            let next = Dir::get_neighbour_pos(from, dir);
            if next.x == to.x && next.y == to.y {
                proof {
                    lemma_neighbours_differ(from, dir, Dir::between(from, to));
                }
                return dir;
            }
            n = n + 1;
        }
        let dir = Dir::from_int(n);
        proof {
            lemma_neighbours_differ(from, dir, Dir::between(from, to));
        }
        dir
    }
}

/// Stepping in a direction and then in the opposite one leads back.
pub proof fn lemma_opposite_leads_back(pos: MapPos, dir: Dir)
    requires
        pos.has_room(),
    ensures
        Dir::neighbour(Dir::neighbour(pos, dir), dir.opposite()) == pos,
        dir.opposite().opposite() == dir,
{
}

/// Different directions lead to different tiles, and none leads to the tile
/// itself.
pub proof fn lemma_neighbours_differ(pos: MapPos, a: Dir, b: Dir)
    requires
        pos.has_room(),
    ensures
        Dir::neighbour(pos, a) != pos,
        Dir::neighbour(pos, a) == Dir::neighbour(pos, b) ==> a == b,
{
}

/// Between two neighbours there is one direction, and the opposite one leads
/// back.
pub proof fn lemma_between(from: MapPos, to: MapPos)
    requires
        from.has_room(),
        Dir::adjacent(from, to),
    ensures
        Dir::neighbour(from, Dir::between(from, to)) == to,
        forall|d: Dir| #[trigger] Dir::neighbour(from, d) == to ==> d == Dir::between(from, to),
        Dir::neighbour(to, Dir::between(from, to).opposite()) == from,
{
    let dir = Dir::between(from, to);
    assert forall|d: Dir| #[trigger] Dir::neighbour(from, d) == to implies d == dir by {
        lemma_neighbours_differ(from, d, dir);
    }
    lemma_opposite_leads_back(from, dir);
}

/// Being neighbours is mutual.
pub proof fn lemma_adjacent_symmetric(a: MapPos, b: MapPos)
    requires
        a.has_room(),
        Dir::adjacent(a, b),
    ensures
        Dir::adjacent(b, a),
{
    let d = choose|d: Dir| #[trigger] Dir::neighbour(a, d) == b;
    lemma_opposite_leads_back(a, d);
}

} // verus!
