//! Plain value types shared by the whole crate.

use vstd::prelude::*;

verus! {

/// The integer type of map coordinates, tile costs and move points.
pub type MInt = i32;

/// A width and a height.
#[derive(Debug, PartialEq, Eq)]
pub struct Size2<T> {
    pub w: T,
    pub h: T,
}

impl<T: Copy> Clone for Size2<T> {
    fn clone(&self) -> (size: Self)
        ensures
            size == *self,
    {
        *self
    }
}

impl<T: Copy> Copy for Size2<T> {

}

/// A tile position in offset coordinates: `x` counts columns, `y` counts rows.
#[derive(Clone, Copy, Debug, PartialEq, Eq, Structural, Hash)]
pub struct MapPos {
    pub x: MInt,
    pub y: MInt,
}

/// Identifies a unit.
#[derive(Clone, Copy, Debug, PartialEq, Eq, Structural, Hash)]
pub struct UnitId {
    pub id: MInt,
}

impl MapPos {
    /// Both coordinates can be moved by one in either direction without
    /// leaving the range of `MInt`.
    pub open spec fn has_room(self) -> bool {
        MInt::MIN < self.x < MInt::MAX && MInt::MIN < self.y < MInt::MAX
    }

    /// The tile lies in an odd row. Rows alternate, also below row zero.
    pub open spec fn in_odd_row(self) -> bool {
        self.y as int % 2 == 1
    }
}

/// `pos` lies on a board of the given size.
pub open spec fn on_board(size: Size2<MInt>, pos: MapPos) -> bool {
    0 <= pos.x < size.w && 0 <= pos.y < size.h
}

} // verus!
