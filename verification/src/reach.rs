//! What a unit can reach: the board, the tiles that other units block, and
//! the least number of steps from the start to each tile.

use vstd::prelude::*;
use crate::cost_map::MAX_COST;
use crate::dir::Dir;
use crate::types::{MInt, MapPos, Size2, on_board};

verus! {

/// The setting of a fill: the size of the board, the tiles on which units
/// stand, and the tile from which the moving unit starts.
pub struct Field {
    pub size: Size2<MInt>,
    pub blocked: Set<MapPos>,
    pub start: MapPos,
}

/// The number of steps that a unit with `move_points` can take: none with
/// less than one move point, and never as many as `MAX_COST`.
pub open spec fn budget_of(move_points: MInt) -> nat {
    if move_points < 0 {
        0
    } else if move_points >= MAX_COST {
        (MAX_COST - 1) as nat
    } else {
        move_points as nat
    }
}

/// More move points give no fewer steps.
pub proof fn lemma_budget_of_monotone(fewer: MInt, more: MInt)
    requires
        fewer <= more,
    ensures
        budget_of(fewer) <= budget_of(more),
        budget_of(more) < MAX_COST,
        0 <= more < MAX_COST ==> budget_of(more) == more,
{
}

impl Field {
    /// `pos` is a position of the board.
    pub open spec fn inboard(self, pos: MapPos) -> bool {
        on_board(self.size, pos)
    }

    /// A unit may step onto `pos`: it is on the board and no unit stands
    /// there.
    pub open spec fn enterable(self, pos: MapPos) -> bool {
        self.inboard(pos) && !self.blocked.contains(pos)
    }

    /// `pos` is the start, or can be entered from a neighbour that is itself
    /// within `steps - 1` steps of the start: at most `steps` steps lead from
    /// the start to `pos`, each onto a tile that may be entered.
    pub open spec fn within(self, steps: nat, pos: MapPos) -> bool
        decreases steps,
    {
        if steps == 0 {
            pos == self.start
        } else {
            ||| self.within((steps - 1) as nat, pos)
            ||| self.enterable(pos) && exists|d: Dir|
                self.within((steps - 1) as nat, #[trigger] Dir::neighbour(pos, d))
        }
    }

    /// The least number of steps, up to `limit`, within which `pos` lies;
    /// `limit` itself where it lies within none of them.
    pub open spec fn distance_upto(self, limit: nat, pos: MapPos) -> nat
        decreases limit,
    {
        if limit > 0 && self.within((limit - 1) as nat, pos) {
            self.distance_upto((limit - 1) as nat, pos)
        } else {
            limit
        }
    }

    /// The cost that a fill with `budget` steps gives the tile at `pos`: its
    /// distance from the start where that is at most `budget`, else
    /// `MAX_COST`.
    pub open spec fn cost(self, budget: nat, pos: MapPos) -> int {
        if self.within(budget, pos) {
            self.distance_upto(budget, pos) as int
        } else {
            MAX_COST as int
        }
    }

    /// `route` leads from the start to `pos`, each step onto a tile that may
    /// be entered.
    pub open spec fn follows(self, route: Seq<Dir>, pos: MapPos) -> bool
        decreases route.len(),
    {
        if route.len() == 0 {
            pos == self.start
        } else {
            &&& self.enterable(pos)
            &&& self.follows(route.drop_last(), Dir::neighbour(pos, route.last().opposite()))
        }
    }
}

/// What lies within some number of steps lies within any greater number.
pub proof fn lemma_within_monotone(field: Field, steps: nat, more: nat, pos: MapPos)
    requires
        field.within(steps, pos),
        steps <= more,
    ensures
        field.within(more, pos),
    decreases more,
{
    if steps < more {
        lemma_within_monotone(field, steps, (more - 1) as nat, pos);
    }
}

/// Only tiles of the board lie within any number of steps of a start on the
/// board.
pub proof fn lemma_within_inboard(field: Field, steps: nat, pos: MapPos)
    requires
        field.inboard(field.start),
        field.within(steps, pos),
    ensures
        field.inboard(pos),
    decreases steps,
{
    if steps > 0 && field.within((steps - 1) as nat, pos) {
        lemma_within_inboard(field, (steps - 1) as nat, pos);
    }
}

/// `distance_upto` is the distance: the tile lies within that many steps and
/// within no fewer.
pub proof fn lemma_distance_upto(field: Field, limit: nat, pos: MapPos)
    requires
        field.within(limit, pos),
    ensures
        field.distance_upto(limit, pos) <= limit,
        field.within(field.distance_upto(limit, pos), pos),
        forall|steps: nat| #[trigger]
            field.within(steps, pos) ==> field.distance_upto(limit, pos) <= steps,
    decreases limit,
{
    if limit > 0 && field.within((limit - 1) as nat, pos) {
        lemma_distance_upto(field, (limit - 1) as nat, pos);
    } else {
        assert forall|steps: nat| #[trigger] field.within(steps, pos) implies limit <= steps by {
            if steps < limit {
                lemma_within_monotone(field, steps, (limit - 1) as nat, pos);
            }
        }
    }
}

/// A tile to which a route leads lies within as many steps as the route has.
pub proof fn lemma_follows_within(field: Field, route: Seq<Dir>, pos: MapPos)
    requires
        field.follows(route, pos),
    ensures
        field.within(route.len(), pos),
    decreases route.len(),
{
    if route.len() > 0 {
        let prev = Dir::neighbour(pos, route.last().opposite());
        lemma_follows_within(field, route.drop_last(), prev);
    }
}

} // verus!
