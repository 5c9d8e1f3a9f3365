//! The state of a fill in progress and what holds of it from the first tile
//! to the last: the argument that the fill computes distances and prefers
//! the first of the shortest routes.
//!
//! The tiles that were reached and still wait to be expanded form the
//! sequence `pend`, in the order in which they were reached. The tile in
//! front is the one under expansion; `tried` counts the directions, in
//! visiting order, in which its neighbours were already looked at.

use vstd::prelude::*;
use crate::cost_map::{CostMap, Tile, MAX_COST};
use crate::dir::{Dir, lemma_between, lemma_neighbours_differ, lemma_opposite_leads_back};
use crate::fill::{filled, tile_filled};
use crate::reach::{
    Field, budget_of, lemma_distance_upto, lemma_follows_within, lemma_within_inboard,
    lemma_within_monotone,
};
use crate::route::{
    lex_le, lex_lt, lemma_lex_le_push, lemma_lex_le_transitive, lemma_lex_lt_asymmetric,
    lemma_lex_lt_last, lemma_lex_lt_push,
};
use crate::rows::{lemma_unreached_with_tile, unreached_tiles};
use crate::step::{Progress, look, look_round};
use crate::types::{MInt, MapPos};

verus! {

/// `a` was reached before `b`: at a lower cost, or at the same cost by a
/// route that comes first.
pub open spec fn before(map: CostMap, a: MapPos, b: MapPos) -> bool {
    ||| map.cost(a) < map.cost(b)
    ||| map.cost(a) == map.cost(b) && lex_lt(map.route_to(a), map.route_to(b))
}

/// What the tile at `pos` holds is consistent with a fill of `field`.
pub open spec fn tile_sound(map: CostMap, field: Field, budget: nat, pos: MapPos) -> bool {
    &&& 0 <= map.cost(pos) <= MAX_COST
    &&& map.cost(pos) < MAX_COST ==> map.cost(pos) <= budget
    &&& map.cost(pos) == 0 <==> pos == field.start
    &&& if map.cost(pos) == 0 || map.cost(pos) == MAX_COST {
        map.parent(pos) is None
    } else {
        &&& field.enterable(pos)
        &&& map.parent(pos) is Some
        &&& field.inboard(map.toward_start(pos))
        &&& map.cost(map.toward_start(pos)) == map.cost(pos) - 1
    }
}

/// The map has the size of the field, the start is on the board, the budget
/// is less than `MAX_COST`, and every tile is sound.
pub open spec fn sound(map: CostMap, field: Field, budget: nat) -> bool {
    &&& map.size == field.size
    &&& map.well_formed()
    &&& field.inboard(field.start)
    &&& budget < MAX_COST
    &&& forall|pos: MapPos| field.inboard(pos) ==> #[trigger] tile_sound(map, field, budget, pos)
}

/// The neighbour of `pos` in direction `dir` needs no more attention: if it
/// may be entered within the budget, it is reached, at a cost of at most one
/// more than `pos`, and where it is one more, by a route that is the route
/// through `pos` or comes before it.
pub open spec fn settled(map: CostMap, field: Field, budget: nat, pos: MapPos, dir: Dir) -> bool {
    let next = Dir::neighbour(pos, dir);
    field.enterable(next) && map.cost(pos) + 1 <= budget ==> {
        &&& map.cost(next) <= map.cost(pos) + 1
        &&& map.cost(next) == map.cost(pos) + 1 ==> lex_le(
            map.route_to(next),
            map.route_to(pos).push(dir),
        )
    }
}

/// The first `tried` directions from `pos` are settled.
pub open spec fn expanded(
    map: CostMap,
    field: Field,
    budget: nat,
    pos: MapPos,
    tried: int,
) -> bool {
    forall|d: Dir| d.index() < tried ==> #[trigger] settled(map, field, budget, pos, d)
}

/// The waiting tiles are reached tiles in the order in which they were
/// reached.
pub open spec fn pend_sorted(map: CostMap, pend: Seq<MapPos>) -> bool {
    &&& forall|j: int| 0 <= j < pend.len() ==> map.reached(#[trigger] pend[j])
    &&& forall|i: int, j: int|
        0 <= i < j < pend.len() ==> before(map, #[trigger] pend[i], #[trigger] pend[j])
}

/// Every reached tile that does not wait was reached before those that do.
pub open spec fn done_first(map: CostMap, pend: Seq<MapPos>) -> bool {
    forall|pos: MapPos, j: int|
        map.reached(pos) && !pend.contains(pos) && 0 <= j < pend.len() ==> #[trigger] before(
            map,
            pos,
            pend[j],
        )
}

/// No tile was reached from a tile that waits behind the front, and those
/// reached from the front lie in directions that were tried.
pub open spec fn parents_out(map: CostMap, pend: Seq<MapPos>, tried: int) -> bool {
    forall|pos: MapPos, j: int|
        #![trigger map.toward_start(pos), pend[j]]
        map.inboard(pos) && 0 < map.cost(pos) < MAX_COST && 0 <= j < pend.len()
            && map.toward_start(pos) == pend[j] ==> j == 0 && map.parent(
            pos,
        ).unwrap().opposite().index() < tried
}

/// The reached tiles that do not wait are expanded, and the one in front as
/// far as its directions were tried.
pub open spec fn done_expanded(
    map: CostMap,
    field: Field,
    budget: nat,
    pend: Seq<MapPos>,
    tried: int,
) -> bool {
    &&& forall|pos: MapPos|
        map.reached(pos) && !pend.contains(pos) ==> #[trigger] expanded(map, field, budget, pos, 6)
    &&& pend.len() > 0 ==> expanded(map, field, budget, pend[0], tried)
}

/// What holds throughout a fill.
pub open spec fn searching(
    map: CostMap,
    field: Field,
    budget: nat,
    pend: Seq<MapPos>,
    tried: int,
) -> bool {
    &&& 0 <= tried <= 6
    &&& sound(map, field, budget)
    &&& pend_sorted(map, pend)
    &&& done_first(map, pend)
    &&& parents_out(map, pend, tried)
    &&& done_expanded(map, field, budget, pend, tried)
}

/// The route to a tile other than the start is the route to the tile it was
/// reached from, and the step from there.
pub proof fn lemma_route_unfold(map: CostMap, field: Field, budget: nat, pos: MapPos)
    requires
        sound(map, field, budget),
        field.inboard(pos),
        0 < map.cost(pos) < MAX_COST,
    ensures
        map.parent(pos) is Some,
        map.route_to(pos) == map.route_to(map.toward_start(pos)).push(
            map.parent(pos).unwrap().opposite(),
        ),
        map.reached(map.toward_start(pos)),
        map.cost(map.toward_start(pos)) == map.cost(pos) - 1,
        Dir::neighbour(map.toward_start(pos), map.parent(pos).unwrap().opposite()) == pos,
{
    assert(tile_sound(map, field, budget, pos));
    lemma_opposite_leads_back(pos, map.parent(pos).unwrap());
}

/// Writing a tile that was not reached changes the route to no reached tile.
pub proof fn lemma_route_frame(
    map: CostMap,
    field: Field,
    budget: nat,
    at: MapPos,
    tile: Tile,
    pos: MapPos,
)
    requires
        sound(map, field, budget),
        field.inboard(at),
        map.cost(at) == MAX_COST,
        map.reached(pos),
    ensures
        map.with_tile(at, tile).route_to(pos) == map.route_to(pos),
    decreases map.cost(pos),
{
    assert(tile_sound(map, field, budget, pos));
    if map.cost(pos) > 0 {
        lemma_route_frame(map, field, budget, at, tile, map.toward_start(pos));
    }
}

/// No tile was reached before itself.
pub proof fn lemma_before_irreflexive(map: CostMap, pos: MapPos)
    ensures
        !before(map, pos, pos),
{
    if lex_lt(map.route_to(pos), map.route_to(pos)) {
        lemma_lex_lt_asymmetric(map.route_to(pos), map.route_to(pos));
    }
}

/// A reached tile costs at most one more than the tile in front, and no
/// more than that tile unless it waits.
pub proof fn lemma_reached_cost_bound(
    map: CostMap,
    field: Field,
    budget: nat,
    pend: Seq<MapPos>,
    tried: int,
    pos: MapPos,
)
    requires
        searching(map, field, budget, pend, tried),
        pend.len() > 0,
        map.reached(pos),
    ensures
        map.cost(pos) <= map.cost(pend[0]) + 1,
        !pend.contains(pos) ==> map.cost(pos) <= map.cost(pend[0]),
        0 <= map.cost(pend[0]) < MAX_COST,
{
    let front = pend[0];
    assert(tile_sound(map, field, budget, front));
    assert(tile_sound(map, field, budget, pos));
    if !pend.contains(pos) {
        assert(before(map, pos, front));
    } else if map.cost(pos) > 0 {
        // The tile was reached from the front or from a tile that waits no
        // more, and neither costs more than the front.
        let prev = map.toward_start(pos);
        lemma_route_unfold(map, field, budget, pos);
        if !pend.contains(prev) {
            assert(before(map, prev, front));
        }
    }
}

/// A neighbour of the tile in front that is already reached is settled.
pub proof fn lemma_reached_is_settled(
    map: CostMap,
    field: Field,
    budget: nat,
    pend: Seq<MapPos>,
    tried: int,
    dir: Dir,
)
    requires
        searching(map, field, budget, pend, tried),
        pend.len() > 0,
        dir.index() == tried,
        map.reached(Dir::neighbour(pend[0], dir)),
    ensures
        settled(map, field, budget, pend[0], dir),
{
    let front = pend[0];
    let next = Dir::neighbour(front, dir);
    lemma_reached_cost_bound(map, field, budget, pend, tried, next);
    if map.cost(next) == map.cost(front) + 1 {
        // The neighbour was not reached from the front, whose direction
        // `dir` is not tried yet, so from a tile that was reached before
        // the front: its route comes before the one through the front.
        lemma_route_unfold(map, field, budget, next);
        let prev = map.toward_start(next);
        let step = map.parent(next).unwrap().opposite();
        lemma_neighbours_differ(front, step, dir);
        assert(before(map, prev, front));
        lemma_lex_lt_push(map.route_to(prev), map.route_to(front), step, dir);
    }
}

/// After a look at a neighbour that is off the board, blocked, beyond the
/// budget or reached already, one more direction is tried.
pub proof fn lemma_skip(
    map: CostMap,
    field: Field,
    move_points: MInt,
    pend: Seq<MapPos>,
    tried: int,
)
    requires
        searching(map, field, budget_of(move_points), pend, tried),
        pend.len() > 0,
        tried < 6,
        ({
            let next = Dir::neighbour(pend[0], Dir::of_index(tried));
            !(field.enterable(next) && map.cost(next) > map.cost(pend[0]) + 1 && map.cost(pend[0])
                + 1 <= move_points)
        }),
    ensures
        searching(map, field, budget_of(move_points), pend, tried + 1),
{
    let budget = budget_of(move_points);
    let front = pend[0];
    let dir = Dir::of_index(tried);
    assert(tile_sound(map, field, budget, front));
    if field.enterable(Dir::neighbour(front, dir)) && map.cost(front) + 1 <= budget {
        lemma_reached_is_settled(map, field, budget, pend, tried, dir);
    }
    assert forall|d: Dir| d.index() < tried + 1 implies #[trigger] settled(
        map,
        field,
        budget,
        front,
        d,
    ) by {}
}

/// The neighbour that is looked at next: the one of the tile in front in the
/// first direction that was not tried.
pub open spec fn next_of(pend: Seq<MapPos>, tried: int) -> MapPos {
    Dir::neighbour(pend[0], Dir::of_index(tried))
}

/// The neighbour that is looked at next is to be entered: it may be, within
/// the budget, and was not reached.
pub open spec fn relax_ready(
    map: CostMap,
    field: Field,
    budget: nat,
    pend: Seq<MapPos>,
    tried: int,
) -> bool {
    &&& searching(map, field, budget, pend, tried)
    &&& pend.len() > 0
    &&& tried < 6
    &&& field.enterable(next_of(pend, tried))
    &&& map.cost(next_of(pend, tried)) == MAX_COST
    &&& map.cost(pend[0]) + 1 <= budget
}

/// The map after the neighbour that is looked at next was entered from the
/// tile in front.
pub open spec fn relaxed(map: CostMap, pend: Seq<MapPos>, tried: int) -> CostMap {
    map.with_tile(
        next_of(pend, tried),
        Tile {
            cost: (map.cost(pend[0]) + 1) as MInt,
            parent: Some(Dir::of_index(tried).opposite()),
        },
    )
}

/// Entering a tile changes nothing for the tiles reached before, and gives
/// the new tile the route through the tile in front.
pub proof fn lemma_relaxed_frame(
    map: CostMap,
    field: Field,
    budget: nat,
    pend: Seq<MapPos>,
    tried: int,
)
    requires
        relax_ready(map, field, budget, pend, tried),
    ensures
        relaxed(map, pend, tried).size == map.size,
        relaxed(map, pend, tried).well_formed(),
        !map.reached(next_of(pend, tried)),
        relaxed(map, pend, tried).cost(next_of(pend, tried)) == map.cost(pend[0]) + 1,
        relaxed(map, pend, tried).toward_start(next_of(pend, tried)) == pend[0],
        relaxed(map, pend, tried).route_to(next_of(pend, tried)) == map.route_to(pend[0]).push(
            Dir::of_index(tried),
        ),
        forall|pos: MapPos|
            map.inboard(pos) && pos != next_of(pend, tried) ==> #[trigger] relaxed(
                map,
                pend,
                tried,
            ).tiles[pos] == map.tiles[pos],
        forall|pos: MapPos|
            map.reached(pos) ==> #[trigger] relaxed(map, pend, tried).route_to(pos)
                == map.route_to(pos),
{
    let front = pend[0];
    let dir = Dir::of_index(tried);
    let next = next_of(pend, tried);
    let after = relaxed(map, pend, tried);
    assert(tile_sound(map, field, budget, front));
    lemma_opposite_leads_back(front, dir);
    assert forall|pos: MapPos| after.tiles.dom().contains(pos) <==> after.inboard(pos) by {
        assert(map.tiles.dom().contains(pos) <==> map.inboard(pos));
    }
    assert forall|pos: MapPos| map.reached(pos) implies #[trigger] after.route_to(pos)
        == map.route_to(pos) by {
        lemma_route_frame(map, field, budget, next, after.tiles[next], pos);
    }
    assert(after.route_to(next) == after.route_to(front).push(dir));
}

proof fn lemma_relaxed_sound(
    map: CostMap,
    field: Field,
    budget: nat,
    pend: Seq<MapPos>,
    tried: int,
)
    requires
        relax_ready(map, field, budget, pend, tried),
    ensures
        sound(relaxed(map, pend, tried), field, budget),
{
    let after = relaxed(map, pend, tried);
    lemma_relaxed_frame(map, field, budget, pend, tried);
    assert(tile_sound(map, field, budget, pend[0]));
    assert forall|pos: MapPos| field.inboard(pos) implies #[trigger] tile_sound(
        after,
        field,
        budget,
        pos,
    ) by {
        assert(tile_sound(map, field, budget, pos));
    }
}

/// A tile that waits was reached before the tile that is entered now.
proof fn lemma_waiting_before_next(
    map: CostMap,
    field: Field,
    budget: nat,
    pend: Seq<MapPos>,
    tried: int,
    i: int,
)
    requires
        relax_ready(map, field, budget, pend, tried),
        0 <= i < pend.len(),
    ensures
        before(relaxed(map, pend, tried), pend[i], next_of(pend, tried)),
{
    let front = pend[0];
    let dir = Dir::of_index(tried);
    let pos = pend[i];
    lemma_relaxed_frame(map, field, budget, pend, tried);
    lemma_reached_cost_bound(map, field, budget, pend, tried, pos);
    if map.cost(pos) == map.cost(front) + 1 {
        lemma_route_unfold(map, field, budget, pos);
        let prev = map.toward_start(pos);
        let step = map.parent(pos).unwrap().opposite();
        if pend.contains(prev) {
            // Reached from the front, in a direction tried before `dir`.
            lemma_lex_lt_last(map.route_to(front), step, dir);
        } else {
            // Reached from a tile that was reached before the front.
            assert(before(map, prev, front));
            lemma_lex_lt_push(map.route_to(prev), map.route_to(front), step, dir);
        }
    }
}

proof fn lemma_relaxed_sorted(
    map: CostMap,
    field: Field,
    budget: nat,
    pend: Seq<MapPos>,
    tried: int,
)
    requires
        relax_ready(map, field, budget, pend, tried),
    ensures
        pend_sorted(relaxed(map, pend, tried), pend.push(next_of(pend, tried))),
{
    let after = relaxed(map, pend, tried);
    let longer = pend.push(next_of(pend, tried));
    lemma_relaxed_frame(map, field, budget, pend, tried);
    assert forall|j: int| 0 <= j < longer.len() implies after.reached(#[trigger] longer[j]) by {}
    assert forall|i: int, j: int| 0 <= i < j < longer.len() implies before(
        after,
        #[trigger] longer[i],
        #[trigger] longer[j],
    ) by {
        if j == pend.len() {
            lemma_waiting_before_next(map, field, budget, pend, tried, i);
        }
    }
}

/// A tile of `pend` is a tile of `pend` with one more behind it.
proof fn lemma_push_contains(pend: Seq<MapPos>, next: MapPos, pos: MapPos)
    ensures
        pend.push(next).contains(next),
        pend.contains(pos) ==> pend.push(next).contains(pos),
{
    let longer = pend.push(next);
    assert(longer[pend.len() as int] == next);
    if pend.contains(pos) {
        let k = choose|k: int| 0 <= k < pend.len() && pend[k] == pos;
        assert(longer[k] == pos);
    }
}

proof fn lemma_relaxed_done_first(
    map: CostMap,
    field: Field,
    budget: nat,
    pend: Seq<MapPos>,
    tried: int,
)
    requires
        relax_ready(map, field, budget, pend, tried),
    ensures
        done_first(relaxed(map, pend, tried), pend.push(next_of(pend, tried))),
{
    let next = next_of(pend, tried);
    let after = relaxed(map, pend, tried);
    let longer = pend.push(next);
    lemma_relaxed_frame(map, field, budget, pend, tried);
    assert forall|pos: MapPos, j: int|
        after.reached(pos) && !longer.contains(pos) && 0 <= j < longer.len() implies
        #[trigger] before(after, pos, longer[j]) by {
        lemma_push_contains(pend, next, pos);
        if j < pend.len() {
            assert(before(map, pos, pend[j]));
        } else {
            lemma_reached_cost_bound(map, field, budget, pend, tried, pos);
        }
    }
}

proof fn lemma_relaxed_parents_out(
    map: CostMap,
    field: Field,
    budget: nat,
    pend: Seq<MapPos>,
    tried: int,
)
    requires
        relax_ready(map, field, budget, pend, tried),
    ensures
        parents_out(relaxed(map, pend, tried), pend.push(next_of(pend, tried)), tried + 1),
{
    let next = next_of(pend, tried);
    let after = relaxed(map, pend, tried);
    let longer = pend.push(next);
    lemma_relaxed_frame(map, field, budget, pend, tried);
    assert forall|pos: MapPos, j: int|
        #![trigger after.toward_start(pos), longer[j]]
        after.inboard(pos) && 0 < after.cost(pos) < MAX_COST && 0 <= j < longer.len()
            && after.toward_start(pos) == longer[j] implies j == 0 && after.parent(
        pos,
    ).unwrap().opposite().index() < tried + 1 by {
        if pos == next {
            // The new tile was reached from the front, which waits once.
            lemma_before_irreflexive(map, pend[0]);
        } else {
            lemma_route_unfold(map, field, budget, pos);
        }
    }
}

/// A direction that was settled stays so when another tile is entered.
proof fn lemma_relaxed_settled(
    map: CostMap,
    field: Field,
    budget: nat,
    pend: Seq<MapPos>,
    tried: int,
    pos: MapPos,
    dir: Dir,
)
    requires
        relax_ready(map, field, budget, pend, tried),
        map.reached(pos),
        settled(map, field, budget, pos, dir),
    ensures
        settled(relaxed(map, pend, tried), field, budget, pos, dir),
{
    lemma_relaxed_frame(map, field, budget, pend, tried);
}

proof fn lemma_relaxed_done_expanded(
    map: CostMap,
    field: Field,
    budget: nat,
    pend: Seq<MapPos>,
    tried: int,
)
    requires
        relax_ready(map, field, budget, pend, tried),
    ensures
        done_expanded(
            relaxed(map, pend, tried),
            field,
            budget,
            pend.push(next_of(pend, tried)),
            tried + 1,
        ),
{
    let front = pend[0];
    let next = next_of(pend, tried);
    let after = relaxed(map, pend, tried);
    let longer = pend.push(next);
    lemma_relaxed_frame(map, field, budget, pend, tried);
    assert forall|pos: MapPos| after.reached(pos) && !longer.contains(pos) implies
        #[trigger] expanded(after, field, budget, pos, 6) by {
        lemma_push_contains(pend, next, pos);
        assert(expanded(map, field, budget, pos, 6));
        assert forall|d: Dir| d.index() < 6 implies #[trigger] settled(
            after,
            field,
            budget,
            pos,
            d,
        ) by {
            lemma_relaxed_settled(map, field, budget, pend, tried, pos, d);
        }
    }
    assert forall|d: Dir| d.index() < tried + 1 implies #[trigger] settled(
        after,
        field,
        budget,
        front,
        d,
    ) by {
        if d.index() < tried {
            lemma_relaxed_settled(map, field, budget, pend, tried, front, d);
        }
    }
}

/// Entering the neighbour that is looked at next, and letting it wait behind
/// the others, keeps the fill in order.
pub proof fn lemma_relax(
    map: CostMap,
    field: Field,
    move_points: MInt,
    pend: Seq<MapPos>,
    tried: int,
)
    requires
        searching(map, field, budget_of(move_points), pend, tried),
        pend.len() > 0,
        tried < 6,
        field.enterable(next_of(pend, tried)),
        map.cost(next_of(pend, tried)) > map.cost(pend[0]) + 1,
        map.cost(pend[0]) + 1 <= move_points,
    ensures
        relax_ready(map, field, budget_of(move_points), pend, tried),
        searching(
            relaxed(map, pend, tried),
            field,
            budget_of(move_points),
            pend.push(next_of(pend, tried)),
            tried + 1,
        ),
{
    let budget = budget_of(move_points);
    let next = next_of(pend, tried);
    assert(tile_sound(map, field, budget, next));
    if map.reached(next) {
        lemma_reached_cost_bound(map, field, budget, pend, tried, next);
    }
    lemma_relaxed_sound(map, field, budget, pend, tried);
    lemma_relaxed_sorted(map, field, budget, pend, tried);
    lemma_relaxed_done_first(map, field, budget, pend, tried);
    lemma_relaxed_parents_out(map, field, budget, pend, tried);
    lemma_relaxed_done_expanded(map, field, budget, pend, tried);
}

/// A tile that does not wait behind the front either is the front or does
/// not wait at all.
proof fn lemma_drop_first_contains(pend: Seq<MapPos>, pos: MapPos)
    requires
        pend.len() > 0,
        !pend.drop_first().contains(pos),
    ensures
        pos == pend[0] || !pend.contains(pos),
{
    if pend.contains(pos) {
        let k = choose|k: int| 0 <= k < pend.len() && pend[k] == pos;
        if k > 0 {
            assert(pend.drop_first()[k - 1] == pos);
        }
    }
}

/// When all six directions from the tile in front were tried, the tile no
/// longer waits and the one behind it comes to the front.
pub proof fn lemma_next(map: CostMap, field: Field, budget: nat, pend: Seq<MapPos>)
    requires
        searching(map, field, budget, pend, 6),
        pend.len() > 0,
    ensures
        searching(map, field, budget, pend.drop_first(), 0),
{
    let rest = pend.drop_first();
    assert forall|j: int| 0 <= j < rest.len() implies map.reached(#[trigger] rest[j]) by {}
    assert forall|i: int, j: int| 0 <= i < j < rest.len() implies before(
        map,
        #[trigger] rest[i],
        #[trigger] rest[j],
    ) by {}
    assert forall|pos: MapPos, j: int|
        map.reached(pos) && !rest.contains(pos) && 0 <= j < rest.len() implies #[trigger] before(
        map,
        pos,
        rest[j],
    ) by {
        lemma_drop_first_contains(pend, pos);
    }
    assert forall|pos: MapPos, j: int|
        #![trigger map.toward_start(pos), rest[j]]
        map.inboard(pos) && 0 < map.cost(pos) < MAX_COST && 0 <= j < rest.len()
            && map.toward_start(pos) == rest[j] implies j == 0 && map.parent(
        pos,
    ).unwrap().opposite().index() < 0 by {
        // No tile was reached from a tile behind the front.
        assert(map.toward_start(pos) == pend[j + 1]);
    }
    assert forall|pos: MapPos| map.reached(pos) && !rest.contains(pos) implies #[trigger] expanded(
        map,
        field,
        budget,
        pos,
        6,
    ) by {
        lemma_drop_first_contains(pend, pos);
    }
}

/// The progress of a fill in which `pend` is the tile under expansion and
/// the tiles that wait behind it.
pub open spec fn behind_front(map: CostMap, pend: Seq<MapPos>) -> Progress {
    Progress { map: map, queue: pend.drop_first() }
}

/// The tile under expansion in front of the tiles that wait.
pub open spec fn with_front(front: MapPos, after: Progress) -> Seq<MapPos> {
    seq![front] + after.queue
}

/// The look at the next neighbour of the tile in front keeps the fill in
/// order, and what it adds to the tiles that wait it takes from the tiles
/// that are not reached.
pub proof fn lemma_look(
    map: CostMap,
    field: Field,
    move_points: MInt,
    pend: Seq<MapPos>,
    tried: int,
)
    requires
        searching(map, field, budget_of(move_points), pend, tried),
        pend.len() > 0,
        tried < 6,
    ensures
        ({
            let at = behind_front(map, pend);
            let next = next_of(pend, tried);
            let after = if map.inboard(next) {
                look(at, field.blocked, move_points, pend[0], next)
            } else {
                at
            };
            &&& searching(
                after.map,
                field,
                budget_of(move_points),
                with_front(pend[0], after),
                tried + 1,
            )
            &&& unreached_tiles(after.map) + after.queue.len() == unreached_tiles(map)
                + at.queue.len()
        }),
{
    let budget = budget_of(move_points);
    let front = pend[0];
    let at = behind_front(map, pend);
    let next = next_of(pend, tried);
    assert(seq![front] + at.queue =~= pend);
    assert(tile_sound(map, field, budget, front));
    if map.inboard(next) && map.cost(next) > map.cost(front) + 1 && !field.blocked.contains(next)
        && map.cost(front) + 1 <= move_points {
        lemma_relax(map, field, move_points, pend, tried);
        // The direction back from the neighbour is the one opposite to the
        // direction of the look.
        lemma_opposite_leads_back(front, Dir::of_index(tried));
        lemma_between(next, front);
        let after = look(at, field.blocked, move_points, front, next);
        assert(after.map == relaxed(map, pend, tried));
        assert(seq![front] + after.queue =~= pend.push(next));
        lemma_unreached_with_tile(map, next, after.map.tiles[next]);
    } else {
        lemma_skip(map, field, move_points, pend, tried);
    }
}

/// The looks at the neighbours of the tile in front in the first `tried`
/// directions keep the fill in order, and add to the tiles that wait as
/// many as they take from the tiles that are not reached.
pub proof fn lemma_look_round(
    map: CostMap,
    field: Field,
    move_points: MInt,
    pend: Seq<MapPos>,
    tried: nat,
)
    requires
        searching(map, field, budget_of(move_points), pend, 0),
        pend.len() > 0,
        tried <= 6,
    ensures
        ({
            let at = behind_front(map, pend);
            let after = look_round(at, field.blocked, move_points, pend[0], tried);
            &&& searching(
                after.map,
                field,
                budget_of(move_points),
                with_front(pend[0], after),
                tried as int,
            )
            &&& unreached_tiles(after.map) + after.queue.len() == unreached_tiles(map)
                + at.queue.len()
        }),
    decreases tried,
{
    let front = pend[0];
    let at = behind_front(map, pend);
    if tried == 0 {
        assert(seq![front] + at.queue =~= pend);
    } else {
        let less = (tried - 1) as nat;
        let so_far = look_round(at, field.blocked, move_points, front, less);
        let waiting = with_front(front, so_far);
        lemma_look_round(map, field, move_points, pend, less);
        assert(waiting[0] == front);
        assert(behind_front(so_far.map, waiting).queue =~= so_far.queue);
        lemma_look(so_far.map, field, move_points, waiting, less as int);
    }
}

/// When the six neighbours of the tile in front were looked at, the fill is
/// in order with the next tile in front, and either fewer tiles are not
/// reached or fewer wait than before the tile was taken from the front.
pub proof fn lemma_expanded(map: CostMap, field: Field, move_points: MInt, pend: Seq<MapPos>)
    requires
        searching(map, field, budget_of(move_points), pend, 0),
        pend.len() > 0,
    ensures
        ({
            let after = look_round(behind_front(map, pend), field.blocked, move_points, pend[0], 6);
            &&& searching(after.map, field, budget_of(move_points), after.queue, 0)
            &&& unreached_tiles(after.map) + after.queue.len() + 1 == unreached_tiles(map)
                + pend.len()
        }),
{
    let after = look_round(behind_front(map, pend), field.blocked, move_points, pend[0], 6);
    lemma_look_round(map, field, move_points, pend, 6);
    lemma_next(after.map, field, budget_of(move_points), with_front(pend[0], after));
    assert(with_front(pend[0], after).drop_first() =~= after.queue);
}

/// A map in which only the start is reached, at cost 0, with the start as
/// the one tile that waits, is where a fill begins.
pub proof fn lemma_seeded(map: CostMap, field: Field, budget: nat)
    requires
        map.size == field.size,
        map.well_formed(),
        field.inboard(field.start),
        budget < MAX_COST,
        forall|pos: MapPos|
            field.inboard(pos) ==> #[trigger] map.tiles[pos] == (Tile {
                cost: if pos == field.start {
                    0
                } else {
                    MAX_COST
                },
                parent: None,
            }),
    ensures
        searching(map, field, budget, seq![field.start], 0),
{
    let pend = seq![field.start];
    assert(pend[0] == field.start);
    assert forall|pos: MapPos| field.inboard(pos) implies #[trigger] tile_sound(
        map,
        field,
        budget,
        pos,
    ) by {}
    assert forall|pos: MapPos| map.reached(pos) implies pend.contains(pos) by {}
}

/// The recorded route to a reached tile leads there from the start, in as
/// many steps as the tile costs.
pub proof fn lemma_route_follows(map: CostMap, field: Field, budget: nat, pos: MapPos)
    requires
        sound(map, field, budget),
        map.reached(pos),
    ensures
        field.follows(map.route_to(pos), pos),
        map.route_to(pos).len() == map.cost(pos),
        field.within(map.cost(pos) as nat, pos),
    decreases map.cost(pos),
{
    assert(tile_sound(map, field, budget, pos));
    if map.cost(pos) > 0 {
        lemma_route_unfold(map, field, budget, pos);
        let prev = map.toward_start(pos);
        lemma_route_follows(map, field, budget, prev);
        assert(map.route_to(pos).drop_last() =~= map.route_to(prev));
    }
    lemma_follows_within(field, map.route_to(pos), pos);
}

/// When no tile waits any more, every tile within `steps` steps of the
/// start, where that is within the budget, is reached at no higher cost.
pub proof fn lemma_complete(map: CostMap, field: Field, budget: nat, steps: nat, pos: MapPos)
    requires
        searching(map, field, budget, Seq::empty(), 0),
        field.within(steps, pos),
        steps <= budget,
    ensures
        map.reached(pos),
        map.cost(pos) <= steps,
    decreases steps,
{
    lemma_within_inboard(field, steps, pos);
    assert(tile_sound(map, field, budget, pos));
    if steps == 0 {
    } else if field.within((steps - 1) as nat, pos) {
        lemma_complete(map, field, budget, (steps - 1) as nat, pos);
    } else {
        // The tile may be entered from a neighbour within one step less.
        // That neighbour is reached and expanded, so the tile is settled.
        let d = choose|d: Dir|
            field.within((steps - 1) as nat, #[trigger] Dir::neighbour(pos, d));
        let prev = Dir::neighbour(pos, d);
        lemma_complete(map, field, budget, (steps - 1) as nat, prev);
        lemma_opposite_leads_back(pos, d);
        assert(expanded(map, field, budget, prev, 6));
        assert(settled(map, field, budget, prev, d.opposite()));
    }
}

/// When no tile waits any more, the recorded route to a reached tile is the
/// first of the routes that lead there in as many steps.
pub proof fn lemma_first_route(
    map: CostMap,
    field: Field,
    budget: nat,
    pos: MapPos,
    route: Seq<Dir>,
)
    requires
        searching(map, field, budget, Seq::empty(), 0),
        map.reached(pos),
        field.follows(route, pos),
        route.len() == map.cost(pos),
    ensures
        lex_le(map.route_to(pos), route),
    decreases route.len(),
{
    assert(tile_sound(map, field, budget, pos));
    if route.len() == 0 {
        assert(map.route_to(pos) =~= route);
    } else {
        // The route comes over a neighbour one step nearer to the start.
        // The recorded route to the neighbour is that part of the route or
        // comes before it, and the neighbour settled the step to the tile.
        let d = route.last();
        let head = route.drop_last();
        let prev = Dir::neighbour(pos, d.opposite());
        lemma_follows_within(field, head, prev);
        lemma_complete(map, field, budget, head.len(), prev);
        lemma_opposite_leads_back(pos, d.opposite());
        assert(expanded(map, field, budget, prev, 6));
        assert(settled(map, field, budget, prev, d));
        lemma_first_route(map, field, budget, prev, head);
        lemma_lex_le_push(map.route_to(prev), head, d);
        assert(head.push(d) =~= route);
        lemma_lex_le_transitive(map.route_to(pos), map.route_to(prev).push(d), route);
    }
}

/// When no tile waits any more, the map is filled.
pub proof fn lemma_finished(map: CostMap, field: Field, budget: nat)
    requires
        searching(map, field, budget, Seq::empty(), 0),
    ensures
        filled(map, field, budget),
{
    assert forall|pos: MapPos| field.inboard(pos) implies #[trigger] tile_filled(
        map,
        field,
        budget,
        pos,
    ) by {
        assert(tile_sound(map, field, budget, pos));
        if field.within(budget, pos) {
            // Reached at a cost within the budget: at the least number of
            // steps, since the tile lies within no fewer than it costs.
            lemma_complete(map, field, budget, budget, pos);
            lemma_distance_upto(field, budget, pos);
            lemma_complete(map, field, budget, field.distance_upto(budget, pos), pos);
            lemma_route_follows(map, field, budget, pos);
        } else if map.reached(pos) {
            lemma_route_follows(map, field, budget, pos);
            lemma_within_monotone(field, map.cost(pos) as nat, budget, pos);
        }
    }
    assert forall|pos: MapPos, route: Seq<Dir>|
        map.reached(pos) && #[trigger] field.follows(route, pos) && route.len() == map.cost(
            pos,
        ) implies lex_le(map.route_to(pos), route) by {
        lemma_first_route(map, field, budget, pos, route);
    }
}

} // verus!
