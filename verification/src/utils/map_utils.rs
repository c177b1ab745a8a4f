use vstd::prelude::*;

use crate::map::map_cell::{MapCell, CELL_SIZE};
use crate::map::tile::TileType;
use crate::map::tile_map::{
    cord_in_bounds, cord_index, lemma_as_i16, tile_index, MapDimensions, MapTileGrid,
};
use crate::utils::map_cord::MapCord;

verus! {

/// The index, in a cell grid, of the cell that holds the point `(x, y)`.
pub open spec fn cell_index(dims: MapDimensions, x: int, y: int) -> int {
    (y / 50) * (dims.width / 50) + x / 50
}

/// The index computation of a cell fits in `u16` and names an existing cell.
pub open spec fn cell_index_ok(cells_len: int, dims: MapDimensions, x: int, y: int) -> bool {
    &&& (y / 50) * (dims.width / 50) <= u16::MAX
    &&& cell_index(dims, x, y) <= u16::MAX
    &&& cell_index(dims, x, y) < cells_len
}

/// The tile at the point `(x, y)` of the grid.
pub fn get_tile_from_x_y(map: &MapTileGrid, map_dimensions: MapDimensions, x: i16, y: i16) -> (t: TileType)
    requires
        0 <= x,
        0 <= y,
        tile_index(map_dimensions, x as int, y as int) < map@.len(),
    ensures
        t == map@[tile_index(map_dimensions, x as int, y as int)],
{
    let idx = cords_to_index(map_dimensions, MapCord::new(x, y));
    map[idx]
}

/// Whether a coordinate lies on the map.
pub fn is_tile_in_bounds(map_dimensions: MapDimensions, cord: MapCord) -> (b: bool)
    ensures
        b == cord_in_bounds(map_dimensions, cord),
{
    proof {
        lemma_as_i16(map_dimensions.width);
        lemma_as_i16(map_dimensions.height);
    }
    let is_x_in_bounds = cord.x >= 0 && cord.x < map_dimensions.width as i16;
    let is_y_in_bounds = cord.y >= 0 && cord.y < map_dimensions.height as i16;
    is_x_in_bounds && is_y_in_bounds
}

/// The tile at a coordinate of the grid.
pub fn get_tile_at_cord(map: &MapTileGrid, map_dimensions: MapDimensions, cord: MapCord) -> (t: TileType)
    requires
        0 <= cord.x,
        0 <= cord.y,
        cord_index(map_dimensions, cord) < map@.len(),
    ensures
        t == map@[cord_index(map_dimensions, cord)],
{
    let idx = cords_to_index(map_dimensions, cord);
    map[idx]
}

/// The row-major index of a coordinate with no negative component.
pub fn cords_to_index(map_dimensions: MapDimensions, cord: MapCord) -> (i: usize)
    requires
        0 <= cord.x,
        0 <= cord.y,
    ensures
        i == cord_index(map_dimensions, cord),
{
    let y_u = cord.y as usize;
    let x_u = cord.x as usize;
    let w = map_dimensions.width as usize;
    assert(y_u * w + x_u <= 32767 * 65535 + 32767) by (nonlinear_arith)
        requires
            y_u <= 32767,
            x_u <= 32767,
            w <= 65535,
    ;
    y_u * w + x_u
}

/// The cell that holds a coordinate, or `None` when the coordinate is off
/// the map.
pub fn get_cell_at_cord(cells: &mut [MapCell], map_dimensions: MapDimensions, cord: MapCord) -> (r: Option<&mut MapCell>)
    requires
        cord_in_bounds(map_dimensions, cord) ==> cell_index_ok(
            old(cells)@.len() as int,
            map_dimensions,
            cord.x as int,
            cord.y as int,
        ),
    ensures
        r is None <==> !cord_in_bounds(map_dimensions, cord),
        r is None ==> final(cells)@ == old(cells)@,
        r matches Some(m) ==> {
            let i = cell_index(map_dimensions, cord.x as int, cord.y as int);
            &&& *m == old(cells)@[i]
            &&& final(cells)@ == old(cells)@.update(i, *final(m))
        },
{
    if !is_tile_in_bounds(map_dimensions, cord) {
        return None;
    }
    let cell_x = cord.x as u16 / CELL_SIZE;
    let cell_y = cord.y as u16 / CELL_SIZE;
    let num_of_cells_wide = map_dimensions.width / CELL_SIZE;
    let i = (cell_y * num_of_cells_wide + cell_x) as usize;
    Some(&mut cells[i])
}

} // verus!
