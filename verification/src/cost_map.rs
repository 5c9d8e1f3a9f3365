//! The cost map: what a fill leaves behind for every tile, seen as a
//! mathematical map from positions to tiles, and the route that the parent
//! directions record.

use vstd::prelude::*;
use crate::dir::{Dir, lemma_opposite_leads_back};
use crate::types::{MInt, MapPos, Size2, on_board};

verus! {

/// The cost of a tile that was not reached. No tile is ever reached at this
/// cost or a higher one.
pub const MAX_COST: MInt = 30000;

/// What is known of one tile: the least number of steps from the start, or
/// `MAX_COST`, and the direction of the neighbour from which it was reached.
#[derive(Clone, Copy, Debug, PartialEq, Eq)]
pub struct Tile {
    pub cost: MInt,
    pub parent: Option<Dir>,
}

/// The tiles of a board, by position.
pub struct CostMap {
    pub size: Size2<MInt>,
    pub tiles: Map<MapPos, Tile>,
}

impl CostMap {
    /// `pos` is a position of the board.
    pub open spec fn inboard(self, pos: MapPos) -> bool {
        on_board(self.size, pos)
    }

    /// The map has a tile for each position of the board and for no other.
    pub open spec fn well_formed(self) -> bool {
        forall|pos: MapPos| self.tiles.dom().contains(pos) <==> self.inboard(pos)
    }

    /// The cost that the tile at `pos` holds.
    pub open spec fn cost(self, pos: MapPos) -> int {
        self.tiles[pos].cost as int
    }

    /// The parent direction that the tile at `pos` holds.
    pub open spec fn parent(self, pos: MapPos) -> Option<Dir> {
        self.tiles[pos].parent
    }

    /// The tile is on the board and has a cost other than `MAX_COST`.
    pub open spec fn reached(self, pos: MapPos) -> bool {
        self.inboard(pos) && self.cost(pos) != MAX_COST
    }

    /// The neighbour that the parent direction of `pos` points to.
    pub open spec fn toward_start(self, pos: MapPos) -> MapPos {
        Dir::neighbour(pos, self.parent(pos).unwrap())
    }

    /// The same map with the tile at `pos` replaced.
    pub open spec fn with_tile(self, pos: MapPos, tile: Tile) -> CostMap {
        CostMap { size: self.size, tiles: self.tiles.insert(pos, tile) }
    }

    /// The tile at `pos` has a cost from 0 to `MAX_COST`, and if that cost is
    /// neither of the two, a parent direction that points to a tile of the
    /// board whose cost is less by one.
    pub open spec fn tile_linked(self, pos: MapPos) -> bool {
        &&& 0 <= self.cost(pos) <= MAX_COST
        &&& 0 < self.cost(pos) < MAX_COST ==> {
            &&& self.parent(pos) is Some
            &&& self.inboard(self.toward_start(pos))
            &&& self.cost(self.toward_start(pos)) == self.cost(pos) - 1
        }
    }

    /// Every tile of the board is linked: from each reached tile the parent
    /// directions lead, one cost less at each step, to a tile of cost 0.
    pub open spec fn linked(self) -> bool {
        forall|pos: MapPos| self.inboard(pos) ==> #[trigger] self.tile_linked(pos)
    }

    /// The tiles from the one of cost 0 to `dest`, as the parent directions
    /// record them.
    pub open spec fn path_to(self, dest: MapPos) -> Seq<MapPos>
        decreases self.cost(dest),
    {
        if self.cost(dest) > 0 && self.parent(dest) is Some && 0 <= self.cost(
            self.toward_start(dest),
        ) < self.cost(dest) {
            self.path_to(self.toward_start(dest)).push(dest)
        } else {
            seq![dest]
        }
    }

    /// The directions of the steps of `path_to(dest)`, first step first.
    pub open spec fn route_to(self, dest: MapPos) -> Seq<Dir>
        decreases self.cost(dest),
    {
        if self.cost(dest) > 0 && self.parent(dest) is Some && 0 <= self.cost(
            self.toward_start(dest),
        ) < self.cost(dest) {
            self.route_to(self.toward_start(dest)).push(self.parent(dest).unwrap().opposite())
        } else {
            Seq::empty()
        }
    }
}

/// In `path`, the tile at `i` is the one that the parent direction of the
/// tile at `i + 1` points to, so that a step in the opposite direction leads
/// from the tile at `i` to the tile at `i + 1`.
pub open spec fn step_recorded(map: CostMap, path: Seq<MapPos>, i: int) -> bool {
    &&& map.parent(path[i + 1]) is Some
    &&& map.toward_start(path[i + 1]) == path[i]
    &&& Dir::neighbour(path[i], map.parent(path[i + 1]).unwrap().opposite()) == path[i + 1]
}

/// The shape of a recorded path: it has one tile more than the cost of its
/// destination, tile `i` is on the board and has cost `i`, the last tile is
/// the destination, and each step from one tile to the next is the one that
/// the map records.
pub proof fn lemma_path_shape(map: CostMap, dest: MapPos)
    requires
        map.linked(),
        map.reached(dest),
    ensures
        map.path_to(dest).len() == map.cost(dest) + 1,
        map.path_to(dest).last() == dest,
        forall|i: int|
            0 <= i < map.path_to(dest).len() ==> {
                &&& map.inboard(#[trigger] map.path_to(dest)[i])
                &&& map.cost(map.path_to(dest)[i]) == i
            },
        forall|i: int|
            0 <= i < map.path_to(dest).len() - 1 ==> #[trigger] step_recorded(
                map,
                map.path_to(dest),
                i,
            ),
    decreases map.cost(dest),
{
    assert(map.tile_linked(dest));
    if map.cost(dest) > 0 {
        // The path is the path to the tile before `dest`, and `dest`.
        let prev = map.toward_start(dest);
        let head = map.path_to(prev);
        let path = map.path_to(dest);
        lemma_path_shape(map, prev);
        lemma_opposite_leads_back(dest, map.parent(dest).unwrap());
        assert forall|i: int| 0 <= i < path.len() - 1 implies #[trigger] step_recorded(
            map,
            path,
            i,
        ) by {
            if i < head.len() - 1 {
                assert(step_recorded(map, head, i));
            }
        }
    }
}

} // verus!
