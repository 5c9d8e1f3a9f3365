//! What holds of every filled map, whatever the board, the units and the
//! move points.

use vstd::prelude::*;
use crate::cost_map::{CostMap, MAX_COST, lemma_path_shape, step_recorded};
use crate::dir::Dir;
use crate::fill::{filled, lemma_filled_linked, tile_filled};
use crate::hex::{
    hex_distance, hex_within, lemma_distance_is_within, lemma_within_bounds_distance,
    lemma_within_is_distance,
};
use crate::reach::{
    Field, budget_of, lemma_budget_of_monotone, lemma_distance_upto, lemma_within_monotone,
};
use crate::route::lemma_lex_le_antisymmetric;
use crate::search::{lemma_route_follows, lemma_route_unfold, sound, tile_sound};
use crate::types::{MInt, MapPos};

verus! {

/// Where no unit stands on a tile other than the start, what lies within a
/// number of steps is what lies within them on the bare board.
pub proof fn lemma_within_unobstructed(field: Field, steps: nat, pos: MapPos)
    requires
        forall|other: MapPos| other != field.start ==> !field.blocked.contains(other),
    ensures
        field.within(steps, pos) == hex_within(field.size, field.start, steps, pos),
    decreases steps,
{
    if steps > 0 {
        let less = (steps - 1) as nat;
        lemma_within_unobstructed(field, less, pos);
        assert forall|d: Dir|
            field.within(less, #[trigger] Dir::neighbour(pos, d)) == hex_within(
                field.size,
                field.start,
                less,
                Dir::neighbour(pos, d),
            ) by {
            lemma_within_unobstructed(field, less, Dir::neighbour(pos, d));
        }
        if pos == field.start {
            lemma_within_monotone(field, 0, less, pos);
        }
    }
}

/// The cost of a tile is its distance from the start: a tile is reached if
/// and only if it lies within the budget, and then it lies within as many
/// steps as it costs and within no fewer.
pub proof fn lemma_cost_is_distance(map: CostMap, field: Field, budget: nat, pos: MapPos)
    requires
        filled(map, field, budget),
        field.inboard(pos),
    ensures
        map.reached(pos) <==> field.within(budget, pos),
        map.reached(pos) ==> 0 <= map.cost(pos) <= budget && field.within(
            map.cost(pos) as nat,
            pos,
        ),
        forall|steps: nat| #[trigger]
            field.within(steps, pos) && steps <= budget ==> map.cost(pos) <= steps,
{
    assert(tile_filled(map, field, budget, pos));
    if field.within(budget, pos) {
        lemma_distance_upto(field, budget, pos);
    }
    assert forall|steps: nat| #[trigger]
        field.within(steps, pos) && steps <= budget implies map.cost(pos) <= steps by {
        lemma_within_monotone(field, steps, budget, pos);
    }
}

/// On a board where no unit stands in the way, a tile is reached if and only
/// if its distance from the start over the board is at most the budget, and
/// its cost is that distance.
pub proof fn lemma_distance_unobstructed(map: CostMap, field: Field, budget: nat, pos: MapPos)
    requires
        filled(map, field, budget),
        field.inboard(pos),
        forall|other: MapPos| other != field.start ==> !field.blocked.contains(other),
    ensures
        map.reached(pos) <==> hex_within(field.size, field.start, budget, pos),
        map.reached(pos) ==> 0 <= map.cost(pos) <= budget && hex_within(
            field.size,
            field.start,
            map.cost(pos) as nat,
            pos,
        ),
        forall|steps: nat| #[trigger]
            hex_within(field.size, field.start, steps, pos) && steps <= budget ==> map.cost(pos)
                <= steps,
{
    lemma_cost_is_distance(map, field, budget, pos);
    lemma_within_unobstructed(field, budget, pos);
    if map.reached(pos) {
        lemma_within_unobstructed(field, map.cost(pos) as nat, pos);
    }
    assert forall|steps: nat| #[trigger]
        hex_within(field.size, field.start, steps, pos) && steps <= budget implies map.cost(pos)
        <= steps by {
        lemma_within_unobstructed(field, steps, pos);
    }
}

/// On a board where no unit stands in the way, the cost of a tile is its
/// distance from the start on the hexagonal grid, where that is at most the
/// budget, and `MAX_COST` where it is more.
pub proof fn lemma_cost_is_hex_distance(map: CostMap, field: Field, budget: nat, pos: MapPos)
    requires
        filled(map, field, budget),
        field.inboard(pos),
        forall|other: MapPos| other != field.start ==> !field.blocked.contains(other),
    ensures
        map.cost(pos) == if hex_distance(field.start, pos) <= budget {
            hex_distance(field.start, pos)
        } else {
            MAX_COST as int
        },
{
    lemma_distance_unobstructed(map, field, budget, pos);
    lemma_within_is_distance(field.size, field.start, budget, pos);
    if map.reached(pos) {
        lemma_within_bounds_distance(field.size, field.start, map.cost(pos) as nat, pos);
        lemma_distance_is_within(field.size, field.start, pos);
    }
}

/// A tile on which a unit stands is not reached, unless it is the start.
pub proof fn lemma_occupied_not_reached(map: CostMap, field: Field, budget: nat, pos: MapPos)
    requires
        filled(map, field, budget),
        field.inboard(pos),
        field.blocked.contains(pos),
        pos != field.start,
    ensures
        map.cost(pos) == MAX_COST,
{
    assert(tile_filled(map, field, budget, pos));
    if field.within(budget, pos) {
        lemma_distance_upto(field, budget, pos);
    }
}

/// What a filled map holds is sound in the sense of the search.
pub proof fn lemma_filled_sound(map: CostMap, field: Field, budget: nat)
    requires
        filled(map, field, budget),
    ensures
        sound(map, field, budget),
{
    assert forall|pos: MapPos| field.inboard(pos) implies #[trigger] tile_sound(
        map,
        field,
        budget,
        pos,
    ) by {
        assert(tile_filled(map, field, budget, pos));
        lemma_within_monotone(field, 0, budget, field.start);
        if field.within(budget, pos) {
            lemma_distance_upto(field, budget, pos);
        }
    }
}

/// The path to a reached tile starts at the start of the fill, and passes
/// over no tile on which a unit stands once it has left the start.
pub proof fn lemma_path_avoids_units(
    map: CostMap,
    field: Field,
    budget: nat,
    dest: MapPos,
    i: int,
)
    requires
        filled(map, field, budget),
        map.reached(dest),
        0 <= i < map.path_to(dest).len(),
    ensures
        map.path_to(dest)[0] == field.start,
        i > 0 ==> field.enterable(map.path_to(dest)[i]),
{
    lemma_filled_sound(map, field, budget);
    lemma_filled_linked(map, field, budget);
    lemma_path_shape(map, dest);
    let path = map.path_to(dest);
    assert(tile_sound(map, field, budget, dest));
    assert(tile_sound(map, field, budget, path[0]));
    assert(tile_sound(map, field, budget, path[i]));
}

/// The path to the start of the fill is the start alone.
pub proof fn lemma_path_to_start(map: CostMap, field: Field, budget: nat)
    requires
        filled(map, field, budget),
    ensures
        map.path_to(field.start) == seq![field.start],
{
    lemma_filled_sound(map, field, budget);
    assert(tile_sound(map, field, budget, field.start));
}

/// The path to a reached tile has one tile more than the tile costs, so at
/// most one more than the budget, and each of its tiles is a neighbour of
/// the one before it.
pub proof fn lemma_path_length(map: CostMap, field: Field, budget: nat, dest: MapPos)
    requires
        filled(map, field, budget),
        map.reached(dest),
    ensures
        map.path_to(dest).len() == map.cost(dest) + 1,
        map.path_to(dest).len() <= budget + 1,
        map.path_to(dest).last() == dest,
        forall|i: int|
            0 <= i < map.path_to(dest).len() - 1 ==> Dir::adjacent(
                #[trigger] map.path_to(dest)[i],
                map.path_to(dest)[i + 1],
            ),
{
    lemma_filled_linked(map, field, budget);
    lemma_path_shape(map, dest);
    lemma_cost_is_distance(map, field, budget, dest);
    let path = map.path_to(dest);
    assert forall|i: int| 0 <= i < path.len() - 1 implies Dir::adjacent(
        #[trigger] path[i],
        path[i + 1],
    ) by {
        assert(step_recorded(map, path, i));
    }
}

/// Two fills of one field hold the same for every tile that the one with
/// the smaller budget reached.
pub proof fn lemma_same_tile(
    small: CostMap,
    large: CostMap,
    field: Field,
    budget: nat,
    more: nat,
    pos: MapPos,
)
    requires
        filled(small, field, budget),
        filled(large, field, more),
        budget <= more,
        small.reached(pos),
    ensures
        large.tiles[pos] == small.tiles[pos],
{
    lemma_filled_sound(small, field, budget);
    lemma_filled_sound(large, field, more);
    assert(tile_filled(small, field, budget, pos));
    assert(tile_filled(large, field, more, pos));
    assert(tile_sound(small, field, budget, pos));
    // The cost is the distance in both maps.
    lemma_route_follows(small, field, budget, pos);
    lemma_within_monotone(field, small.cost(pos) as nat, budget, pos);
    lemma_within_monotone(field, small.cost(pos) as nat, more, pos);
    lemma_distance_upto(field, budget, pos);
    lemma_distance_upto(field, more, pos);
    if small.cost(pos) > 0 {
        // Each of the two recorded routes is a shortest route, so each is
        // the other or comes before it: they are one route, with one last
        // step, which the parent directions reverse.
        lemma_route_follows(large, field, more, pos);
        lemma_lex_le_antisymmetric(small.route_to(pos), large.route_to(pos));
        lemma_route_unfold(small, field, budget, pos);
        lemma_route_unfold(large, field, more, pos);
    }
}

/// With more move points on the same map, every tile that was reached is
/// reached still, at the same cost and by the same path.
pub proof fn lemma_budget_monotone(
    small: CostMap,
    large: CostMap,
    field: Field,
    budget: nat,
    more: nat,
    pos: MapPos,
)
    requires
        filled(small, field, budget),
        filled(large, field, more),
        budget <= more,
        small.reached(pos),
    ensures
        large.reached(pos),
        large.cost(pos) == small.cost(pos),
        large.path_to(pos) == small.path_to(pos),
    decreases small.cost(pos),
{
    lemma_same_tile(small, large, field, budget, more, pos);
    lemma_filled_sound(small, field, budget);
    assert(tile_sound(small, field, budget, pos));
    if small.cost(pos) > 0 {
        lemma_budget_monotone(small, large, field, budget, more, small.toward_start(pos));
    }
}

/// A unit with more move points reaches, on the same map, every tile that
/// it reached with fewer, at the same cost and by the same path.
pub proof fn lemma_move_points_monotone(
    small: CostMap,
    large: CostMap,
    field: Field,
    fewer: MInt,
    more: MInt,
    pos: MapPos,
)
    requires
        filled(small, field, budget_of(fewer)),
        filled(large, field, budget_of(more)),
        fewer <= more,
        small.reached(pos),
    ensures
        large.reached(pos),
        large.cost(pos) == small.cost(pos),
        large.path_to(pos) == small.path_to(pos),
{
    lemma_budget_of_monotone(fewer, more);
    lemma_budget_monotone(small, large, field, budget_of(fewer), budget_of(more), pos);
}

/// A fill is determined by the board, the tiles on which units stand, the
/// start and the budget: two maps filled from the same have the same tiles,
/// so the same costs and the same paths, whatever they held before.
pub proof fn lemma_fill_determined(a: CostMap, b: CostMap, field: Field, budget: nat)
    requires
        filled(a, field, budget),
        filled(b, field, budget),
    ensures
        a == b,
{
    assert forall|pos: MapPos| a.tiles.dom().contains(pos) == b.tiles.dom().contains(pos) by {
        assert(a.tiles.dom().contains(pos) <==> a.inboard(pos));
        assert(b.tiles.dom().contains(pos) <==> b.inboard(pos));
    }
    assert forall|pos: MapPos| a.tiles.dom().contains(pos) implies a.tiles[pos] == b.tiles[pos] by {
        assert(a.tiles.dom().contains(pos) <==> a.inboard(pos));
        assert(tile_filled(a, field, budget, pos));
        assert(tile_filled(b, field, budget, pos));
        if a.reached(pos) {
            lemma_same_tile(a, b, field, budget, budget, pos);
        }
    }
    assert(a.tiles =~= b.tiles);
}

} // verus!
