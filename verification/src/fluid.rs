//! Grid arithmetic of the fluid simulation. The simulation works on a grid
//! finer than the tile grid; these functions move between the two.

use vstd::prelude::*;

use crate::map::{tile_index, MAP_HEIGHT, MAP_WIDTH, TRUE_MAP_WIDTH};

verus! {

/// Fluid simulation takes place on a coarse grid, but not quite as coarse as
/// the tile grid for placing towers. Resolution configures how many times finer
/// the fluid grid is compared to the tile grid.
pub const FLUID_RESOLUTION: usize = 2;

// The fluid grid is like the visible tile grid but with increased resolution
// and with an extra 1-cell border around the outside. Borders on all four
// sides translates to width and height having 2 extra cells.
pub const FLUID_WIDTH: usize = 2 + FLUID_RESOLUTION * MAP_WIDTH;

pub const FLUID_HEIGHT: usize = 2 + FLUID_RESOLUTION * MAP_HEIGHT;

pub const MAX_VISIBLE_ROW: usize = FLUID_HEIGHT - 2;

pub const MAX_VISIBLE_COL: usize = FLUID_WIDTH - 2;

pub const FLUID_VISIBLE_AREA: usize = FLUID_RESOLUTION * FLUID_RESOLUTION * MAP_WIDTH * MAP_HEIGHT;

/// The true-map row (or column) of the tile holding fluid row (or column)
/// `x`. Fluid row 0 is the grid's border, which lies in the padding row just
/// outside the visible map.
pub open spec fn true_coord_of_fluid(x: int) -> int {
    2 + (x - 1) / (FLUID_RESOLUTION as int)
}

fn true_coord(x: usize) -> (coord: usize)
    ensures
        coord == true_coord_of_fluid(x as int),
{
    if x == 0 {
        assert((0int - 1) / 2 == -1);
        1
    } else {
        2 + (x - 1) / FLUID_RESOLUTION
    }
}

/// Return the tile index (in a TRUE_MAP_WIDTH x TRUE_MAP_HEIGHT grid) that
/// contains a certain fluid cell given by row and col.
pub fn fluid_pos_to_true_tile_index(row: usize, col: usize) -> (index: usize)
    requires
        tile_index(true_coord_of_fluid(row as int), true_coord_of_fluid(col as int)) <= usize::MAX,
    ensures
        index == tile_index(true_coord_of_fluid(row as int), true_coord_of_fluid(col as int)),
{
    true_tile_pos_to_index(true_coord(row), true_coord(col))
}

/// The index of fluid cell `row`, `col`.
pub open spec fn fluid_index(row: int, col: int) -> int {
    row * FLUID_WIDTH + col
}

/// The fluid row and column of the top left cell of visible tile `row`,
/// `col`.
pub open spec fn top_left_cell(row: int, col: int) -> (int, int) {
    (1 + row * FLUID_RESOLUTION, 1 + col * FLUID_RESOLUTION)
}

/// Return the top left cell in a given tile. This uses visible tile
/// coordinates, not true tile coordinates.
pub fn tile_pos_to_fluid_index(row: usize, col: usize) -> (index: usize)
    requires
        fluid_index(1 + row * FLUID_RESOLUTION, 1 + col * FLUID_RESOLUTION) <= usize::MAX,
    ensures
        index == fluid_index(1 + row * FLUID_RESOLUTION, 1 + col * FLUID_RESOLUTION),
        index == fluid_index(top_left_cell(row as int, col as int).0, top_left_cell(row as int, col as int).1),
{
    assert(row <= fluid_index(1 + row * FLUID_RESOLUTION, 1 + col * FLUID_RESOLUTION)) by (nonlinear_arith)
        requires
            FLUID_RESOLUTION == 2,
            FLUID_WIDTH == 46,
    ;
    assert(col <= fluid_index(1 + row * FLUID_RESOLUTION, 1 + col * FLUID_RESOLUTION)) by (nonlinear_arith)
        requires
            FLUID_RESOLUTION == 2,
            FLUID_WIDTH == 46,
    ;
    fluid_pos_to_index(1 + row * FLUID_RESOLUTION, 1 + col * FLUID_RESOLUTION)
}

fn true_tile_pos_to_index(row: usize, col: usize) -> (index: usize)
    requires
        tile_index(row as int, col as int) <= usize::MAX,
    ensures
        index == tile_index(row as int, col as int),
{
    row * TRUE_MAP_WIDTH + col
}

pub fn fluid_pos_to_index(row: usize, col: usize) -> (index: usize)
    requires
        fluid_index(row as int, col as int) <= usize::MAX,
    ensures
        index == fluid_index(row as int, col as int),
{
    row * FLUID_WIDTH + col
}

/// Every fluid cell of visible tile `row`, `col` lies in that tile, which is
/// true tile `row + 2`, `col + 2`; in particular the cell that
/// `tile_pos_to_fluid_index` gives for a tile does.
pub proof fn lemma_cells_of_a_tile(row: int, col: int, dr: int, dc: int)
    requires
        0 <= row < MAP_HEIGHT,
        0 <= col < MAP_WIDTH,
        0 <= dr < FLUID_RESOLUTION,
        0 <= dc < FLUID_RESOLUTION,
    ensures
        tile_index(
            true_coord_of_fluid(1 + row * FLUID_RESOLUTION + dr),
            true_coord_of_fluid(1 + col * FLUID_RESOLUTION + dc),
        ) == tile_index(row + 2, col + 2),
{
    lemma_coord_of_cell(row, dr);
    lemma_coord_of_cell(col, dc);
}

proof fn lemma_coord_of_cell(x: int, dx: int)
    requires
        0 <= x < MAP_WIDTH,
        0 <= dx < FLUID_RESOLUTION,
    ensures
        true_coord_of_fluid(1 + x * FLUID_RESOLUTION + dx) == x + 2,
{
    assert((2 * x + dx) / 2 == x);
}

/// The cell that `tile_pos_to_fluid_index` gives for a visible tile is the
/// top left one of that tile: it lies in the tile (true tile `row + 2`,
/// `col + 2`), and the cells above it and to its left lie in the tiles above
/// and to the left.
pub proof fn lemma_top_left_cell(row: int, col: int)
    requires
        0 <= row < MAP_HEIGHT,
        0 <= col < MAP_WIDTH,
    ensures
        true_coord_of_fluid(top_left_cell(row, col).0) == row + 2,
        true_coord_of_fluid(top_left_cell(row, col).1) == col + 2,
        true_coord_of_fluid(top_left_cell(row, col).0 - 1) == row + 1,
        true_coord_of_fluid(top_left_cell(row, col).1 - 1) == col + 1,
{
    assert((2 * row) / 2 == row);
    assert((2 * col) / 2 == col);
    assert((2 * row - 1) / 2 == row - 1);
    assert((2 * col - 1) / 2 == col - 1);
}

/// Distinct cells of the fluid grid have distinct indices.
pub proof fn lemma_fluid_index_injective(r1: int, c1: int, r2: int, c2: int)
    requires
        0 <= r1,
        0 <= r2,
        0 <= c1 < FLUID_WIDTH,
        0 <= c2 < FLUID_WIDTH,
        fluid_index(r1, c1) == fluid_index(r2, c2),
    ensures
        r1 == r2,
        c1 == c2,
{
    assert(r1 == r2 && c1 == c2) by (nonlinear_arith)
        requires
            0 <= r1,
            0 <= r2,
            0 <= c1 < 46,
            0 <= c2 < 46,
            r1 * 46 + c1 == r2 * 46 + c2,
    ;
}

} // verus!
