//! The distance between two tiles of a hexagonal grid in closed form, and
//! the proof that it counts the steps of a shortest way over a board.

use vstd::prelude::*;
use crate::dir::Dir;
use crate::types::{MInt, MapPos, Size2, on_board};

verus! {

/// `pos` is the start or a tile of the board next to a tile that is within
/// `steps - 1` steps: at most `steps` steps over the board lead from `start`
/// to `pos`, whoever stands on it.
pub open spec fn hex_within(size: Size2<MInt>, start: MapPos, steps: nat, pos: MapPos) -> bool
    decreases steps,
{
    if steps == 0 {
        pos == start
    } else {
        ||| hex_within(size, start, (steps - 1) as nat, pos)
        ||| on_board(size, pos) && exists|d: Dir|
            hex_within(size, start, (steps - 1) as nat, #[trigger] Dir::neighbour(pos, d))
    }
}

/// The place of a tile along the axis that runs from south-west to
/// north-east: going north-east or south-west does not change it, going
/// east or south-east adds one, going west or north-west takes one away.
pub open spec fn axial_column(pos: MapPos) -> int {
    pos.x - (pos.y + pos.y as int % 2) / 2
}

/// `n` without its sign.
pub open spec fn abs(n: int) -> int {
    if n < 0 {
        -n
    } else {
        n
    }
}

/// The number of steps between two tiles on a hexagonal grid without
/// bounds.
pub open spec fn hex_distance(a: MapPos, b: MapPos) -> int {
    let along = axial_column(a) - axial_column(b);
    let rows = a.y - b.y;
    if abs(along) >= abs(rows) && abs(along) >= abs(along + rows) {
        abs(along)
    } else if abs(rows) >= abs(along + rows) {
        abs(rows)
    } else {
        abs(along + rows)
    }
}

/// One step changes the distance to any tile by at most one.
pub proof fn lemma_step_changes_distance(from: MapPos, pos: MapPos, dir: Dir)
    requires
        pos.has_room(),
    ensures
        hex_distance(from, pos) - 1 <= hex_distance(from, Dir::neighbour(pos, dir))
            <= hex_distance(from, pos) + 1,
        hex_distance(pos, Dir::neighbour(pos, dir)) == 1,
{
}

/// Only a tile itself is at distance 0 from it.
pub proof fn lemma_distance_zero(a: MapPos, b: MapPos)
    ensures
        0 <= hex_distance(a, b),
        hex_distance(a, b) == 0 <==> a == b,
{
}

/// The neighbour of `pos` in direction `dir` is on the board and one step
/// nearer to `from`.
pub open spec fn leads_nearer(size: Size2<MInt>, from: MapPos, pos: MapPos, dir: Dir) -> bool {
    &&& on_board(size, Dir::neighbour(pos, dir))
    &&& hex_distance(from, Dir::neighbour(pos, dir)) == hex_distance(from, pos) - 1
}

/// From a tile of the board some step over the board leads nearer to any
/// other tile of the board.
pub proof fn lemma_some_step_leads_nearer(size: Size2<MInt>, from: MapPos, pos: MapPos)
    requires
        on_board(size, from),
        on_board(size, pos),
        from != pos,
    ensures
        exists|d: Dir| #[trigger] leads_nearer(size, from, pos, d),
{
    let along = axial_column(from) - axial_column(pos);
    let rows = from.y - pos.y;
    let odd = pos.in_odd_row();
    let dir = if rows == 0 {
        if along > 0 {
            Dir::East
        } else {
            Dir::West
        }
    } else if rows > 0 {
        if along >= 0 {
            Dir::NorthEast
        } else if along + rows < 0 {
            Dir::West
        } else if along + rows == 0 {
            Dir::NorthWest
        } else if odd {
            Dir::NorthEast
        } else {
            Dir::NorthWest
        }
    } else {
        if along <= 0 {
            Dir::SouthWest
        } else if along + rows > 0 {
            Dir::East
        } else if along + rows == 0 {
            Dir::SouthEast
        } else if odd {
            Dir::SouthEast
        } else {
            Dir::SouthWest
        }
    };
    lemma_step_axial(pos, dir);
    assert(leads_nearer(size, from, pos, dir));
}

/// What one step in each direction does to the row and to the place along
/// the axis.
pub proof fn lemma_step_axial(pos: MapPos, dir: Dir)
    requires
        pos.has_room(),
    ensures
        Dir::neighbour(pos, dir).y == pos.y + dir.dy(),
        axial_column(Dir::neighbour(pos, dir)) == axial_column(pos) + match dir {
            Dir::SouthEast => 1int,
            Dir::East => 1int,
            Dir::NorthEast => 0int,
            Dir::NorthWest => -1int,
            Dir::West => -1int,
            Dir::SouthWest => 0int,
        },
{
}

/// What lies within some number of steps lies within any greater number.
pub proof fn lemma_hex_within_monotone(
    size: Size2<MInt>,
    start: MapPos,
    steps: nat,
    more: nat,
    pos: MapPos,
)
    requires
        hex_within(size, start, steps, pos),
        steps <= more,
    ensures
        hex_within(size, start, more, pos),
    decreases more,
{
    if steps < more {
        lemma_hex_within_monotone(size, start, steps, (more - 1) as nat, pos);
    }
}

/// A tile within some number of steps of the start is no farther from it
/// than that number.
pub proof fn lemma_within_bounds_distance(
    size: Size2<MInt>,
    start: MapPos,
    steps: nat,
    pos: MapPos,
)
    requires
        hex_within(size, start, steps, pos),
    ensures
        hex_distance(start, pos) <= steps,
    decreases steps,
{
    if steps == 0 {
    } else if hex_within(size, start, (steps - 1) as nat, pos) {
        lemma_within_bounds_distance(size, start, (steps - 1) as nat, pos);
    } else {
        let d = choose|d: Dir|
            hex_within(size, start, (steps - 1) as nat, #[trigger] Dir::neighbour(pos, d));
        lemma_within_bounds_distance(size, start, (steps - 1) as nat, Dir::neighbour(pos, d));
        lemma_step_changes_distance(start, pos, d);
    }
}

/// A tile of the board lies within as many steps of a start on the board as
/// it is far from it.
pub proof fn lemma_distance_is_within(size: Size2<MInt>, start: MapPos, pos: MapPos)
    requires
        on_board(size, start),
        on_board(size, pos),
    ensures
        hex_within(size, start, hex_distance(start, pos) as nat, pos),
    decreases hex_distance(start, pos),
{
    lemma_distance_zero(start, pos);
    if start != pos {
        lemma_some_step_leads_nearer(size, start, pos);
        let d = choose|d: Dir| #[trigger] leads_nearer(size, start, pos, d);
        let prev = Dir::neighbour(pos, d);
        lemma_distance_zero(start, prev);
        lemma_distance_is_within(size, start, prev);
    }
}

/// On a board the tiles within a number of steps of the start are the tiles
/// that are no farther from it than that number.
pub proof fn lemma_within_is_distance(size: Size2<MInt>, start: MapPos, steps: nat, pos: MapPos)
    requires
        on_board(size, start),
        on_board(size, pos),
    ensures
        hex_within(size, start, steps, pos) <==> hex_distance(start, pos) <= steps,
{
    lemma_distance_zero(start, pos);
    if hex_within(size, start, steps, pos) {
        lemma_within_bounds_distance(size, start, steps, pos);
    }
    if hex_distance(start, pos) <= steps {
        lemma_distance_is_within(size, start, pos);
        lemma_hex_within_monotone(size, start, hex_distance(start, pos) as nat, steps, pos);
    }
}

} // verus!
