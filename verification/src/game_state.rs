//! The units on the map, as far as movement depends on them.

use vstd::prelude::*;
use crate::types::{MInt, MapPos, UnitId};

verus! {

/// A unit: where it stands and how many move points it may spend.
#[derive(Clone, Copy, Debug, PartialEq, Eq)]
pub struct Unit {
    pub id: UnitId,
    pub pos: MapPos,
    pub move_points: MInt,
}

/// The units that are on the map.
pub struct GameState {
    pub units: Vec<Unit>,
}

/// How many of `units` stand on `pos`.
pub open spec fn count_at(units: Seq<Unit>, pos: MapPos) -> nat
    decreases units.len(),
{
    if units.len() == 0 {
        0
    } else {
        count_at(units.drop_last(), pos) + if units.last().pos == pos {
            1nat
        } else {
            0nat
        }
    }
}

/// Some unit stands on a tile if and only if the count there is not zero.
pub proof fn lemma_count_at_positive(units: Seq<Unit>, pos: MapPos)
    ensures
        count_at(units, pos) > 0 <==> exists|i: int|
            0 <= i < units.len() && (#[trigger] units[i]).pos == pos,
    decreases units.len(),
{
    if units.len() > 0 {
        let rest = units.drop_last();
        lemma_count_at_positive(rest, pos);
        if count_at(units, pos) > 0 {
            if units.last().pos == pos {
                assert(units[units.len() - 1].pos == pos);
            } else {
                let i = choose|i: int| 0 <= i < rest.len() && (#[trigger] rest[i]).pos == pos;
                assert(units[i].pos == pos);
            }
        } else if exists|i: int| 0 <= i < units.len() && (#[trigger] units[i]).pos == pos {
            let i = choose|i: int| 0 <= i < units.len() && (#[trigger] units[i]).pos == pos;
            assert(rest[i].pos == pos);
        }
    }
}

impl GameState {
    /// How many units stand on `pos`.
    pub open spec fn spec_units_at(&self, pos: MapPos) -> nat {
        count_at(self.units@, pos)
    }

    /// The tiles on which at least one unit stands.
    pub open spec fn occupied(&self) -> Set<MapPos> {
        Set::new(|pos: MapPos| self.spec_units_at(pos) > 0)
    }

    /// A map without units.
    pub fn new() -> (state: GameState)
        ensures
            state.units@ == Seq::<Unit>::empty(),
            state.occupied() == Set::<MapPos>::empty(),
    {
        GameState { units: Vec::new() }
    }

    /// Puts one more unit on the map.
    pub fn add_unit(&mut self, unit: Unit)
        ensures
            final(self).units@ == old(self).units@.push(unit),
            final(self).occupied() == old(self).occupied().insert(unit.pos),
    {
        self.units.push(unit);
        proof {
            // The units before are the units now but for the last.
            assert(self.units@.drop_last() =~= old(self).units@);
        }
    }

    /// How many units stand on `pos`.
    pub fn units_at(&self, pos: MapPos) -> (count: usize)
        ensures
            count == self.spec_units_at(pos),
            count > 0 <==> self.occupied().contains(pos),
            count > 0 <==> exists|i: int|
                0 <= i < self.units@.len() && (#[trigger] self.units@[i]).pos == pos,
    {
        proof {
            lemma_count_at_positive(self.units@, pos);
        }
        let mut count: usize = 0;
        let mut i: usize = 0;
        while i < self.units.len()
            invariant
                i <= self.units.len(),
                count == count_at(self.units@.take(i as int), pos),
                count <= i,
            decreases self.units.len() - i,
        {
            proof {
                assert(self.units@.take(i + 1).drop_last() =~= self.units@.take(i as int));
            }
            let unit = &self.units[i];
            if unit.pos.x == pos.x && unit.pos.y == pos.y {
                count = count + 1;
            }
            i = i + 1;
        }
        proof {
            assert(self.units@.take(i as int) =~= self.units@);
        }
        count
    }
}

} // verus!
