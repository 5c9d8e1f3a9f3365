//! One step of a fill: the look at one neighbour of the tile under
//! expansion, and the round of looks at its six neighbours.

use vstd::prelude::*;
use crate::cost_map::{CostMap, Tile};
use crate::dir::{Dir, lemma_neighbours_differ};
use crate::types::{MInt, MapPos};

verus! {

/// How far a fill has come: the cost map, and the tiles that wait to be
/// expanded, first come first.
pub struct Progress {
    pub map: CostMap,
    pub queue: Seq<MapPos>,
}

/// The tile at `to` is entered from `from`: that costs less than what the
/// tile holds and no more than the move points, and no unit stands there.
pub open spec fn enters(
    map: CostMap,
    blocked: Set<MapPos>,
    move_points: MInt,
    from: MapPos,
    to: MapPos,
) -> bool {
    &&& map.cost(to) > map.cost(from) + 1
    &&& !blocked.contains(to)
    &&& map.cost(from) + 1 <= move_points
}

/// What the tile at `to` holds once it is entered from `from`: one more
/// than the cost of `from`, and the direction that leads back to `from`.
pub open spec fn entered_tile(map: CostMap, from: MapPos, to: MapPos) -> Tile {
    Tile { cost: (map.cost(from) + 1) as MInt, parent: Some(Dir::between(to, from)) }
}

/// The look at the neighbour `to` of `from`. Where the neighbour is
/// entered, its tile is written and it waits behind the others. Where it is
/// not, nothing changes.
pub open spec fn look(
    at: Progress,
    blocked: Set<MapPos>,
    move_points: MInt,
    from: MapPos,
    to: MapPos,
) -> Progress {
    if enters(at.map, blocked, move_points, from, to) {
        Progress {
            map: at.map.with_tile(to, entered_tile(at.map, from, to)),
            queue: at.queue.push(to),
        }
    } else {
        at
    }
}

/// The looks at the neighbours of `pos` in the first `tried` directions,
/// one after the other in the order of the directions. A neighbour off the
/// board is passed over.
pub open spec fn look_round(
    at: Progress,
    blocked: Set<MapPos>,
    move_points: MInt,
    pos: MapPos,
    tried: nat,
) -> Progress
    decreases tried,
{
    if tried == 0 {
        at
    } else {
        let so_far = look_round(at, blocked, move_points, pos, (tried - 1) as nat);
        let next = Dir::neighbour(pos, Dir::of_index(tried - 1));
        if so_far.map.inboard(next) {
            look(so_far, blocked, move_points, pos, next)
        } else {
            so_far
        }
    }
}

/// A look writes no tile but the neighbour's, lets no cost rise, and lets
/// the tiles that wait keep their places.
pub proof fn lemma_look_keeps(
    at: Progress,
    blocked: Set<MapPos>,
    move_points: MInt,
    from: MapPos,
    to: MapPos,
    pos: MapPos,
)
    requires
        at.map.inboard(to),
        at.map.cost(from) + 1 <= MInt::MAX,
    ensures
        look(at, blocked, move_points, from, to).map.size == at.map.size,
        pos != to ==> look(at, blocked, move_points, from, to).map.tiles[pos] == at.map.tiles[pos],
        look(at, blocked, move_points, from, to).map.cost(to) <= at.map.cost(to),
        at.queue.is_prefix_of(look(at, blocked, move_points, from, to).queue),
        look(at, blocked, move_points, from, to).queue.len() <= at.queue.len() + 1,
{
}

/// A round of looks writes no tile but those of the neighbours of `pos` on
/// the board, lets no cost rise, and lets the tiles that wait keep their
/// places in front of at most one new tile for each direction.
pub proof fn lemma_look_round_keeps(
    at: Progress,
    blocked: Set<MapPos>,
    move_points: MInt,
    pos: MapPos,
    tried: nat,
    other: MapPos,
)
    requires
        at.map.inboard(pos),
        at.map.cost(pos) + 1 <= MInt::MAX,
        tried <= 6,
    ensures
        look_round(at, blocked, move_points, pos, tried).map.size == at.map.size,
        look_round(at, blocked, move_points, pos, tried).map.tiles[pos] == at.map.tiles[pos],
        !Dir::adjacent(pos, other) ==> look_round(
            at,
            blocked,
            move_points,
            pos,
            tried,
        ).map.tiles[other] == at.map.tiles[other],
        at.map.inboard(other) ==> look_round(at, blocked, move_points, pos, tried).map.cost(other)
            <= at.map.cost(other),
        at.queue.is_prefix_of(look_round(at, blocked, move_points, pos, tried).queue),
        look_round(at, blocked, move_points, pos, tried).queue.len() <= at.queue.len() + tried,
    decreases tried,
{
    if tried > 0 {
        let so_far = look_round(at, blocked, move_points, pos, (tried - 1) as nat);
        let dir = Dir::of_index(tried - 1);
        let next = Dir::neighbour(pos, dir);
        lemma_look_round_keeps(at, blocked, move_points, pos, (tried - 1) as nat, other);
        lemma_look_round_keeps(at, blocked, move_points, pos, (tried - 1) as nat, next);
        lemma_neighbours_differ(pos, dir, dir);
        if so_far.map.inboard(next) {
            lemma_look_keeps(so_far, blocked, move_points, pos, next, other);
            lemma_look_keeps(so_far, blocked, move_points, pos, next, pos);
        }
    }
}

} // verus!
