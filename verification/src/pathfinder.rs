//! The grid of tiles and the pathfinder that fills it.

use vstd::prelude::*;
use crate::cost_map::{CostMap, Tile, MAX_COST, lemma_path_shape, step_recorded};
use crate::dir::{Dir, lemma_adjacent_symmetric, lemma_between, lemma_neighbours_differ};
use crate::fill::{filled, lemma_filled_linked};
use crate::game_state::{GameState, Unit};
use crate::reach::{Field, budget_of};
use crate::rows::{lemma_tile_index, tile_index, unreached_tiles};
use crate::search::{lemma_expanded, lemma_finished, lemma_seeded, searching, tile_sound};
use crate::step::{Progress, entered_tile, enters, look, look_round, lemma_look_round_keeps};
use crate::types::{MInt, MapPos, Size2, on_board};

verus! {

/// The setting of a fill on a board of the given size: the tiles that the
/// units of `state` occupy are blocked, and the fill starts from `start`.
pub open spec fn field_of(size: Size2<MInt>, state: &GameState, start: MapPos) -> Field {
    Field { size: size, blocked: state.occupied(), start: start }
}

/// The cost of a tile that was not reached.
pub fn max_cost() -> (cost: MInt)
    ensures
        cost == MAX_COST,
{
    30000
}

/// The tiles of a rectangular board, stored row by row.
pub struct Grid {
    size: Size2<MInt>,
    tiles: Vec<Tile>,
}

impl View for Grid {
    type V = CostMap;

    closed spec fn view(&self) -> CostMap {
        CostMap {
            size: self.size,
            tiles: Map::new(
                |pos: MapPos| on_board(self.size, pos),
                |pos: MapPos| self.tiles@[tile_index(self.size, pos)],
            ),
        }
    }
}

impl Grid {
    /// The grid has one tile for each position of a board whose tiles can be
    /// counted in `MInt`.
    pub closed spec fn wf(&self) -> bool {
        &&& 0 <= self.size.w
        &&& 0 <= self.size.h
        &&& self.size.w * self.size.h <= MInt::MAX
        &&& self.tiles@.len() == self.size.w * self.size.h
    }

    /// The tile at `pos`, to be written. The grid then holds what is
    /// written, at `pos` and nowhere else.
    pub fn tile_mut(&mut self, pos: MapPos) -> (tile: &mut Tile)
        requires
            old(self).wf(),
            old(self)@.inboard(pos),
        ensures
            *tile == old(self)@.tiles[pos],
            final(self)@ == old(self)@.with_tile(pos, *final(tile)),
            final(self).wf(),
    {
        proof {
            lemma_tile_index(self.size, pos, pos);
        }
        let ghost size = self.size;
        let ghost before = self.tiles@;
        let index = (pos.x + pos.y * self.size.w) as usize;
        let tile = &mut self.tiles[index];
        proof {
            let after = before.update(index as int, *final(tile));
            let new_view = CostMap {
                size: size,
                tiles: Map::new(
                    |p: MapPos| on_board(size, p),
                    |p: MapPos| after[tile_index(size, p)],
                ),
            };
            assert forall|p: MapPos| on_board(size, p) implies #[trigger] after[tile_index(
                size,
                p,
            )] == old(self)@.with_tile(pos, *final(tile)).tiles[p] by {
                lemma_tile_index(size, p, pos);
            }
            assert(new_view.tiles =~= old(self)@.with_tile(pos, *final(tile)).tiles);
        }
        tile
    }

    /// The tile at `pos`.
    pub fn tile(&self, pos: MapPos) -> (tile: &Tile)
        requires
            self.wf(),
            self@.inboard(pos),
        ensures
            *tile == self@.tiles[pos],
    {
        proof {
            lemma_tile_index(self.size, pos, pos);
        }
        &self.tiles[(pos.x + pos.y * self.size.w) as usize]
    }

    /// Tells whether `pos` is a position of the board.
    pub fn is_inboard(&self, pos: MapPos) -> (inboard: bool)
        ensures
            inboard == self@.inboard(pos),
    {
        let x = pos.x;
        let y = pos.y;
        x >= 0 && y >= 0 && x < self.size.w && y < self.size.h
    }

    /// The width and the height of the board.
    pub fn get_size(&self) -> (size: Size2<MInt>)
        ensures
            size == self@.size,
    {
        self.size
    }
}

/// Why a request to the pathfinder was refused.
#[derive(Clone, Copy, Debug, PartialEq, Eq, Structural)]
pub enum PathError {
    /// The position is not on the board.
    OutOfBounds,
    /// The last fill did not reach the destination.
    UnreachableDestination,
}

/// Computes, for one unit at a time, what the unit can reach and how.
pub struct Pathfinder {
    queue: Vec<MapPos>,
    map: Grid,
}

fn create_tiles(tiles_count: MInt) -> (tiles: Vec<Tile>)
    ensures
        tiles@.len() == if tiles_count > 0 {
            tiles_count as int
        } else {
            0
        },
        forall|i: int|
            0 <= i < tiles@.len() ==> tiles@[i] == (Tile { cost: MAX_COST, parent: None }),
{
    let mut tiles = Vec::new();
    let mut n: MInt = 0;
    while n < tiles_count
        invariant
            0 <= n,
            tiles_count > 0 ==> n <= tiles_count,
            tiles_count <= 0 ==> n == 0,
            tiles@.len() == n,
            forall|i: int|
                0 <= i < tiles@.len() ==> tiles@[i] == (Tile { cost: MAX_COST, parent: None }),
        decreases tiles_count - n,
    {
        tiles.push(Tile { cost: max_cost(), parent: None });
        n = n + 1;
    }
    tiles
}

/// Turns the order of the positions round.
fn reverse(path: &mut Vec<MapPos>)
    ensures
        final(path)@ == old(path)@.reverse(),
{
    let len = path.len();
    let mut i: usize = 0;
    while i < len / 2
        invariant
            len == path@.len(),
            len == old(path)@.len(),
            i <= len / 2,
            forall|k: int|
                0 <= k < i || len - i <= k < len ==> path@[k] == old(path)@[len - 1 - k],
            forall|k: int| i <= k < len - i ==> path@[k] == old(path)@[k],
        decreases len / 2 - i,
    {
        let j = len - 1 - i;
        let front = path[i];
        let back = path[j];
        path[i] = back;
        path[j] = front;
        i = i + 1;
    }
}

impl View for Pathfinder {
    type V = CostMap;

    closed spec fn view(&self) -> CostMap {
        self.map@
    }
}

impl Pathfinder {
    /// The grid that the pathfinder fills.
    pub closed spec fn grid(&self) -> Grid {
        self.map
    }

    /// The tiles that wait to be expanded. Between fills there are none.
    pub closed spec fn pending(&self) -> Seq<MapPos> {
        self.queue@
    }

    /// The grid has its tiles, the cost map is linked, and no tile waits: no
    /// fill is under way.
    pub open spec fn wf(&self) -> bool {
        &&& self.grid().wf()
        &&& self.grid()@ == self@
        &&& self@.well_formed()
        &&& self@.linked()
        &&& self.pending().len() == 0
    }

    /// A pathfinder for a board of the given size. Until the first fill no
    /// tile is reached: every tile has the cost `MAX_COST` and no parent.
    pub fn new(map_size: Size2<MInt>) -> (pathfinder: Pathfinder)
        requires
            0 <= map_size.w,
            0 <= map_size.h,
            map_size.w * map_size.h <= MInt::MAX,
        ensures
            pathfinder.wf(),
            pathfinder@.size == map_size,
            forall|pos: MapPos|
                pathfinder@.inboard(pos) ==> #[trigger] pathfinder@.tiles[pos] == (Tile {
                    cost: MAX_COST,
                    parent: None,
                }),
    {
        assert(0 <= map_size.w * map_size.h) by (nonlinear_arith)
            requires
                0 <= map_size.w,
                0 <= map_size.h,
        ;
        let tiles_count = map_size.w * map_size.h;
        let pathfinder = Pathfinder {
            queue: Vec::new(),
            map: Grid { size: map_size, tiles: create_tiles(tiles_count) },
        };
        proof {
            let map = pathfinder@;
            assert forall|pos: MapPos| map.inboard(pos) implies #[trigger] map.tiles[pos] == (Tile {
                cost: MAX_COST,
                parent: None,
            }) by {
                lemma_tile_index(map_size, pos, pos);
            }
            assert forall|pos: MapPos| map.inboard(pos) implies #[trigger] map.tile_linked(
                pos,
            ) by {}
        }
        pathfinder
    }

    /// The grid with what the last fill left in it.
    pub fn get_map(&self) -> (map: &Grid)
        ensures
            *map == self.grid(),
            map@ == self@,
    {
        &self.map
    }

    /// Looks at the neighbour `neighbour_pos` of the tile `original_pos`.
    ///
    /// The neighbour is entered where that costs less than what its tile
    /// holds, no unit stands on it, and the cost is within the move points
    /// of `unit`. Its tile then holds one more than the cost of
    /// `original_pos` and the direction back to `original_pos`, and the
    /// neighbour waits behind the tiles that waited before. Otherwise
    /// nothing changes. No other tile is written in either case.
    fn process_neighbour_pos(
        &mut self,
        state: &GameState,
        unit: &Unit,
        original_pos: MapPos,
        neighbour_pos: MapPos,
    )
        requires
            old(self).map.wf(),
            old(self)@.inboard(original_pos),
            old(self)@.inboard(neighbour_pos),
            Dir::adjacent(original_pos, neighbour_pos),
            old(self)@.cost(original_pos) < MAX_COST,
        ensures
            final(self).map.wf(),
            (Progress { map: final(self)@, queue: final(self).queue@ }) == look(
                Progress { map: old(self)@, queue: old(self).queue@ },
                state.occupied(),
                unit.move_points,
                original_pos,
                neighbour_pos,
            ),
            enters(old(self)@, state.occupied(), unit.move_points, original_pos, neighbour_pos)
                ==> {
                &&& final(self)@.cost(neighbour_pos) == old(self)@.cost(original_pos) + 1
                &&& final(self)@.parent(neighbour_pos) is Some
                &&& final(self)@.toward_start(neighbour_pos) == original_pos
                &&& final(self).queue@ == old(self).queue@.push(neighbour_pos)
            },
            !enters(old(self)@, state.occupied(), unit.move_points, original_pos, neighbour_pos)
                ==> final(self)@ == old(self)@ && final(self).queue@ == old(self).queue@,
            final(self)@.size == old(self)@.size,
            forall|pos: MapPos|
                pos != neighbour_pos ==> #[trigger] final(self)@.tiles[pos] == old(
                    self,
                )@.tiles[pos],
            final(self)@.cost(neighbour_pos) <= old(self)@.cost(neighbour_pos),
            old(self).queue@.is_prefix_of(final(self).queue@),
    {
        let ghost before = self@;
        proof {
            lemma_adjacent_symmetric(original_pos, neighbour_pos);
            lemma_between(neighbour_pos, original_pos);
        }
        let old_cost = self.map.tile(original_pos).cost;
        let tile = self.map.tile_mut(neighbour_pos);
        let new_cost = old_cost + 1;
        let units_count = state.units_at(neighbour_pos);
        if tile.cost > new_cost && units_count == 0 && new_cost <= unit.move_points {
            self.queue.push(neighbour_pos);
            tile.cost = new_cost;
            tile.parent = Some(Dir::get_dir_from_to(neighbour_pos, original_pos));
            proof {
                assert(self@ == before.with_tile(
                    neighbour_pos,
                    entered_tile(before, original_pos, neighbour_pos),
                ));
            }
        } else {
            proof {
                assert(self@.tiles =~= before.tiles);
            }
        }
    }

    /// Marks every tile as not reached.
    fn clean_map(&mut self)
        requires
            old(self).map.wf(),
        ensures
            final(self).map.wf(),
            final(self).queue@ == old(self).queue@,
            final(self)@.size == old(self)@.size,
            forall|pos: MapPos|
                final(self)@.inboard(pos) ==> #[trigger] final(self)@.tiles[pos] == (Tile {
                    cost: MAX_COST,
                    parent: None,
                }),
    {
        let mut i: usize = 0;
        while i < self.map.tiles.len()
            invariant
                self.map.wf(),
                self.queue@ == old(self).queue@,
                self.map.size == old(self).map.size,
                i <= self.map.tiles@.len(),
                forall|k: int|
                    0 <= k < i ==> self.map.tiles@[k] == (Tile { cost: MAX_COST, parent: None }),
            decreases self.map.tiles@.len() - i,
        {
            self.map.tiles[i] = Tile { cost: max_cost(), parent: None };
            i = i + 1;
        }
        proof {
            let map = self@;
            assert forall|pos: MapPos| map.inboard(pos) implies #[trigger] map.tiles[pos] == (Tile {
                cost: MAX_COST,
                parent: None,
            }) by {
                lemma_tile_index(self.map.size, pos, pos);
            }
        }
    }

    /// Looks at the six neighbours of `pos` in the order of the directions,
    /// and passes over those that lie off the board.
    ///
    /// The neighbours that are entered wait, in that order, behind the tiles
    /// that waited before. No tile is written that is no neighbour of `pos`.
    fn try_to_push_neighbours(&mut self, state: &GameState, unit: &Unit, pos: MapPos)
        requires
            old(self).map.wf(),
            old(self)@.inboard(pos),
            old(self)@.cost(pos) < MAX_COST,
        ensures
            final(self).map.wf(),
            (Progress { map: final(self)@, queue: final(self).queue@ }) == look_round(
                Progress { map: old(self)@, queue: old(self).queue@ },
                state.occupied(),
                unit.move_points,
                pos,
                6,
            ),
            final(self)@.size == old(self)@.size,
            final(self)@.tiles[pos] == old(self)@.tiles[pos],
            forall|other: MapPos|
                !Dir::adjacent(pos, other) ==> #[trigger] final(self)@.tiles[other] == old(
                    self,
                )@.tiles[other],
            forall|other: MapPos|
                old(self)@.inboard(other) ==> #[trigger] final(self)@.cost(other) <= old(
                    self,
                )@.cost(other),
            old(self).queue@.is_prefix_of(final(self).queue@),
            final(self).queue@.len() <= old(self).queue@.len() + 6,
    {
        let ghost start = Progress { map: self@, queue: self.queue@ };
        let ghost blocked = state.occupied();
        let mut i: MInt = 0;
        while i < 6
            invariant
                0 <= i <= 6,
                self.map.wf(),
                start.map == old(self)@,
                start.map.inboard(pos),
                start.map.cost(pos) < MAX_COST,
                blocked == state.occupied(),
                (Progress { map: self@, queue: self.queue@ }) == look_round(
                    start,
                    blocked,
                    unit.move_points,
                    pos,
                    i as nat,
                ),
            decreases 6 - i,
        {
            let dir = Dir::from_int(i);
            let neighbour_pos = Dir::get_neighbour_pos(pos, dir);
            proof {
                lemma_look_round_keeps(start, blocked, unit.move_points, pos, i as nat, pos);
                lemma_neighbours_differ(pos, dir, dir);
            }
            if self.map.is_inboard(neighbour_pos) {
                self.process_neighbour_pos(state, unit, pos, neighbour_pos);
            }
            i = i + 1;
        }
        proof {
            assert forall|other: MapPos|
                !Dir::adjacent(pos, other) implies #[trigger] self@.tiles[other]
                == start.map.tiles[other] by {
                lemma_look_round_keeps(start, blocked, unit.move_points, pos, 6, other);
            }
            assert forall|other: MapPos| start.map.inboard(other) implies #[trigger] self@.cost(
                other,
            ) <= start.map.cost(other) by {
                lemma_look_round_keeps(start, blocked, unit.move_points, pos, 6, other);
            }
            lemma_look_round_keeps(start, blocked, unit.move_points, pos, 6, pos);
        }
    }

    /// Makes `start_pos` the one tile that is reached and waits.
    fn push_start_pos_to_queue(&mut self, start_pos: MapPos)
        requires
            old(self).map.wf(),
            old(self)@.inboard(start_pos),
        ensures
            final(self).map.wf(),
            final(self).queue@ == old(self).queue@.push(start_pos),
            final(self)@ == old(self)@.with_tile(start_pos, Tile { cost: 0, parent: None }),
    {
        self.queue.push(start_pos);
        let start_tile = self.map.tile_mut(start_pos);
        start_tile.cost = 0;
        start_tile.parent = None;
    }

    /// Computes what `unit` can reach from where it stands with the move
    /// points it has, on a map where the units of `state` stand.
    ///
    /// Afterwards the cost of a tile is the least number of steps that lead
    /// to it from the unit's tile, each step onto a neighbouring tile of the
    /// board on which no unit stands, where that number is at most the move
    /// points and less than `MAX_COST`; every other tile has the cost
    /// `MAX_COST`. The parent directions record, for each reached tile, the
    /// first of the shortest routes in the order of the directions. Nothing
    /// of what the map held before the call remains.
    pub fn fill_map(&mut self, state: &GameState, unit: &Unit)
        requires
            old(self).wf(),
            old(self)@.inboard(unit.pos),
        ensures
            final(self).wf(),
            final(self)@.size == old(self)@.size,
            filled(
                final(self)@,
                field_of(old(self)@.size, state, unit.pos),
                budget_of(unit.move_points),
            ),
    {
        let ghost field = field_of(self@.size, state, unit.pos);
        let ghost budget = budget_of(unit.move_points);
        self.clean_map();
        self.push_start_pos_to_queue(unit.pos);
        proof {
            assert(self.queue@ =~= seq![unit.pos]);
            lemma_seeded(self@, field, budget);
        }
        while self.queue.len() != 0
            invariant
                self.map.wf(),
                self@.size == old(self)@.size,
                field == field_of(old(self)@.size, state, unit.pos),
                budget == budget_of(unit.move_points),
                searching(self@, field, budget, self.queue@, 0),
            decreases unreached_tiles(self@) + self.queue@.len(),
        {
            let ghost before = self@;
            let ghost waiting = self.queue@;
            let pos = self.queue.remove(0);
            proof {
                assert(before.reached(waiting[0]));
                assert(tile_sound(before, field, budget, waiting[0]));
                assert(self.queue@ =~= waiting.drop_first());
            }
            self.try_to_push_neighbours(state, unit, pos);
            proof {
                lemma_expanded(before, field, unit.move_points, waiting);
            }
        }
        proof {
            lemma_finished(self@, field, budget);
            lemma_filled_linked(self@, field, budget);
        }
    }

    /// Does what `fill_map` does where the unit stands on the board, and
    /// refuses where it does not. A fill that is refused changes nothing.
    pub fn try_fill_map(&mut self, state: &GameState, unit: &Unit) -> (result: Result<
        (),
        PathError,
    >)
        requires
            old(self).wf(),
        ensures
            final(self).wf(),
            final(self)@.size == old(self)@.size,
            old(self)@.inboard(unit.pos) ==> result is Ok && filled(
                final(self)@,
                field_of(old(self)@.size, state, unit.pos),
                budget_of(unit.move_points),
            ),
            !old(self)@.inboard(unit.pos) ==> result == Err::<(), PathError>(
                PathError::OutOfBounds,
            ) && final(self)@ == old(self)@,
    {
        if !self.map.is_inboard(unit.pos) {
            return Err(PathError::OutOfBounds);
        }
        self.fill_map(state, unit);
        Ok(())
    }

    /// The tiles from the start of the last fill to `destination`, both
    /// included, each a neighbour of the one before it.
    pub fn get_path(&self, destination: MapPos) -> (path: Vec<MapPos>)
        requires
            self.wf(),
            self@.reached(destination),
        ensures
            path@ == self@.path_to(destination),
            path@.len() == self@.cost(destination) + 1,
            self@.cost(path@[0]) == 0,
            path@.last() == destination,
            forall|i: int|
                0 <= i < path@.len() - 1 ==> Dir::adjacent(#[trigger] path@[i], path@[i + 1]),
    {
        let ghost whole = self@.path_to(destination);
        proof {
            lemma_path_shape(self@, destination);
        }
        let mut path = Vec::new();
        let mut pos = destination;
        path.push(destination);
        while self.map.tile(pos).cost != 0
            invariant
                self.wf(),
                self.map.wf(),
                self.map@ == self@,
                whole == self@.path_to(destination),
                whole.len() == self@.cost(destination) + 1,
                forall|i: int|
                    0 <= i < whole.len() ==> {
                        &&& self@.inboard(#[trigger] whole[i])
                        &&& self@.cost(whole[i]) == i
                    },
                forall|i: int|
                    0 <= i < whole.len() - 1 ==> #[trigger] step_recorded(self@, whole, i),
                1 <= path@.len() <= whole.len(),
                pos == whole[whole.len() - path@.len()],
                forall|k: int| 0 <= k < path@.len() ==> path@[k] == whole[whole.len() - 1 - k],
            decreases whole.len() - path@.len(),
        {
            let ghost at = whole.len() - path@.len();
            proof {
                assert(step_recorded(self@, whole, at - 1));
            }
            let parent_dir = self.map.tile(pos).parent.unwrap();
            pos = Dir::get_neighbour_pos(pos, parent_dir);
            path.push(pos);
        }
        reverse(&mut path);
        proof {
            assert forall|i: int| 0 <= i < path@.len() - 1 implies Dir::adjacent(
                #[trigger] path@[i],
                path@[i + 1],
            ) by {
                assert(step_recorded(self@, whole, i));
            }
        }
        path
    }

    /// Does what `get_path` does where the destination is a tile that the
    /// last fill reached, and says why where it is not.
    pub fn try_get_path(&self, destination: MapPos) -> (result: Result<Vec<MapPos>, PathError>)
        requires
            self.wf(),
        ensures
            self@.reached(destination) ==> result is Ok && result.unwrap()@ == self@.path_to(
                destination,
            ),
            !self@.inboard(destination) ==> result == Err::<Vec<MapPos>, PathError>(
                PathError::OutOfBounds,
            ),
            self@.inboard(destination) && !self@.reached(destination) ==> result == Err::<
                Vec<MapPos>,
                PathError,
            >(PathError::UnreachableDestination),
    {
        if !self.map.is_inboard(destination) {
            return Err(PathError::OutOfBounds);
        }
        if self.map.tile(destination).cost == max_cost() {
            return Err(PathError::UnreachableDestination);
        }
        Ok(self.get_path(destination))
    }
}

} // verus!
