//! What a completed fill has written into the cost map.

use vstd::prelude::*;
use crate::cost_map::{CostMap, MAX_COST};
use crate::dir::Dir;
use crate::reach::{Field, lemma_distance_upto};
use crate::route::lex_le;
use crate::types::MapPos;

verus! {

/// The tile at `pos` holds what a fill of `field` with `budget` steps leaves
/// there. Its cost is the distance from the start, or `MAX_COST` where that
/// is more than `budget`. The start and the tiles that were not reached have
/// no parent. Any other tile may be entered, and its parent direction points
/// to a neighbour on the board that is one step nearer to the start.
pub open spec fn tile_filled(map: CostMap, field: Field, budget: nat, pos: MapPos) -> bool {
    &&& map.cost(pos) == field.cost(budget, pos)
    &&& if map.cost(pos) == 0 || map.cost(pos) == MAX_COST {
        map.parent(pos) is None
    } else {
        &&& field.enterable(pos)
        &&& map.parent(pos) is Some
        &&& field.inboard(map.toward_start(pos))
        &&& map.cost(map.toward_start(pos)) == map.cost(pos) - 1
    }
}

/// `map` is the outcome of a fill of `field` with `budget` steps: every tile
/// of the board is filled, and among the shortest routes from the start to a
/// reached tile the one that the parent directions record comes first.
pub open spec fn filled(map: CostMap, field: Field, budget: nat) -> bool {
    &&& map.size == field.size
    &&& map.well_formed()
    &&& field.inboard(field.start)
    &&& budget < MAX_COST
    &&& forall|pos: MapPos| field.inboard(pos) ==> #[trigger] tile_filled(map, field, budget, pos)
    &&& forall|pos: MapPos, route: Seq<Dir>|
        map.reached(pos) && #[trigger] field.follows(route, pos) && route.len() == map.cost(pos)
            ==> lex_le(map.route_to(pos), route)
}

/// A filled map is linked: the parent directions of the reached tiles lead
/// to the start, one cost less at each step.
pub proof fn lemma_filled_linked(map: CostMap, field: Field, budget: nat)
    requires
        filled(map, field, budget),
    ensures
        map.linked(),
{
    assert forall|pos: MapPos| map.inboard(pos) implies #[trigger] map.tile_linked(pos) by {
        assert(tile_filled(map, field, budget, pos));
        if field.within(budget, pos) {
            lemma_distance_upto(field, budget, pos);
        }
    }
}

} // verus!
