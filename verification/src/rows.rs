//! The tiles of a board in the order in which a grid stores them, row by
//! row, and the number of tiles that are not reached.

use vstd::prelude::*;
use crate::cost_map::{CostMap, Tile, MAX_COST};
use crate::types::{MInt, MapPos, Size2, on_board};

verus! {

/// Where the tile at `pos` stands in the row-by-row storage of a grid.
pub open spec fn tile_index(size: Size2<MInt>, pos: MapPos) -> int {
    pos.x + pos.y * size.w
}

/// The position of the tile that stands at `index`.
pub open spec fn pos_at(size: Size2<MInt>, index: int) -> MapPos {
    MapPos { x: (index % size.w as int) as MInt, y: (index / size.w as int) as MInt }
}

/// On a board, every position has its own index below the number of tiles.
pub proof fn lemma_tile_index(size: Size2<MInt>, a: MapPos, b: MapPos)
    requires
        on_board(size, a),
        on_board(size, b),
    ensures
        0 <= tile_index(size, a) < size.w * size.h,
        a.y * size.w <= tile_index(size, a),
        tile_index(size, a) == tile_index(size, b) ==> a == b,
{
    let w = size.w as int;
    let h = size.h as int;
    assert(0 <= a.y * w && a.y * w + w <= w * h) by (nonlinear_arith)
        requires
            0 <= a.y < h,
            0 < w,
    ;
    assert(a.x + a.y * w == b.x + b.y * w ==> a.y == b.y) by (nonlinear_arith)
        requires
            0 <= a.x < w,
            0 <= b.x < w,
    ;
}

/// Below the number of tiles, every index is the index of one position of
/// the board.
pub proof fn lemma_pos_at(size: Size2<MInt>, index: int)
    requires
        0 < size.w,
        0 <= index < size.w * size.h,
    ensures
        on_board(size, pos_at(size, index)),
        tile_index(size, pos_at(size, index)) == index,
{
    let w = size.w as int;
    let h = size.h as int;
    assert(0 <= index % w < w && 0 <= index / w < h && index == (index / w) * w + index % w)
        by (nonlinear_arith)
        requires
            0 < w,
            0 <= index < w * h,
    ;
}

/// How many of `tiles` have the cost `MAX_COST`.
pub open spec fn count_unreached(tiles: Seq<Tile>) -> nat
    decreases tiles.len(),
{
    if tiles.len() == 0 {
        0
    } else {
        count_unreached(tiles.drop_last()) + unreached_one(tiles.last())
    }
}

/// 1 for a tile that has the cost `MAX_COST`, else 0.
pub open spec fn unreached_one(tile: Tile) -> nat {
    if tile.cost == MAX_COST {
        1
    } else {
        0
    }
}

/// Replacing one tile changes the count by what the two tiles count.
pub proof fn lemma_count_unreached_update(tiles: Seq<Tile>, index: int, tile: Tile)
    requires
        0 <= index < tiles.len(),
    ensures
        count_unreached(tiles.update(index, tile)) + unreached_one(tiles[index]) == count_unreached(
            tiles,
        ) + unreached_one(tile),
    decreases tiles.len(),
{
    let after = tiles.update(index, tile);
    if index == tiles.len() - 1 {
        assert(after.drop_last() =~= tiles.drop_last());
    } else {
        lemma_count_unreached_update(tiles.drop_last(), index, tile);
        assert(after.drop_last() =~= tiles.drop_last().update(index, tile));
    }
}

/// The tiles of the map row by row.
pub open spec fn row_major(map: CostMap) -> Seq<Tile> {
    Seq::new((map.size.w * map.size.h) as nat, |index: int| map.tiles[pos_at(map.size, index)])
}

/// How many tiles of the map are not reached.
pub open spec fn unreached_tiles(map: CostMap) -> nat {
    count_unreached(row_major(map))
}

/// Writing one tile changes the number of tiles that are not reached by
/// what the tile before and the tile after count.
pub proof fn lemma_unreached_with_tile(map: CostMap, pos: MapPos, tile: Tile)
    requires
        map.inboard(pos),
    ensures
        unreached_tiles(map.with_tile(pos, tile)) + unreached_one(map.tiles[pos])
            == unreached_tiles(map) + unreached_one(tile),
{
    let size = map.size;
    let at = tile_index(size, pos);
    let before = row_major(map);
    let after = row_major(map.with_tile(pos, tile));
    lemma_tile_index(size, pos, pos);
    lemma_pos_at(size, at);
    lemma_tile_index(size, pos_at(size, at), pos);
    assert forall|index: int| 0 <= index < before.len() implies after[index] == before.update(
        at,
        tile,
    )[index] by {
        lemma_pos_at(size, index);
    }
    assert(after =~= before.update(at, tile));
    lemma_count_unreached_update(before, at, tile);
}

} // verus!
