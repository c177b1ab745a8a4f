use vstd::prelude::*;

use crate::map::map_cell::{MapCell, CELL_SIZE};
use crate::map::tile::{LakeSpriteData, RiverSpriteData, RiverType, TileType};
use crate::entities::object::{ObjectKind, ObjectKindGrid};
use crate::map::tile_map::{
    in_bounds, is_tile, lemma_as_i16, lemma_index_in_grid, lemma_index_injective, tile_at,
    tile_index, grid_wf, total, MapDimensions, MapTileGrid,
};
use crate::utils::directional_deltas::{cardinal_delta, cardinal_step, dir_num, Direction};
use crate::utils::map_cord::MapCord;
use crate::utils::map_cord::sum_fits;
use crate::utils::map_utils::{cords_to_index, get_tile_at_cord, get_tile_from_x_y, is_tile_in_bounds};
use crate::utils::draws::{flip_at, pick_i32_at, pick_usize_at, Draw, DrawSource, RandomDraws};
use crate::map::tile_map::{cord_in_bounds, cord_index};
use rand::rngs::ThreadRng;
use std::collections::VecDeque;

verus! {

/// Lake overlay data, one entry per tile in row-major order; only lake tiles
/// have an entry.
pub type LakeSpriteGrid = Vec<Option<LakeSpriteData>>;

/// A grid of empty cells, `height / 50` rows of `width / 50` cells.
pub fn generate_cell_grid(map_dimensions: MapDimensions) -> (cells: Vec<MapCell>)
    ensures
        cells@.len() == (map_dimensions.height / 50) * (map_dimensions.width / 50),
        forall|i: int| 0 <= i < cells@.len() ==> cells@[i].chars_in_cell@.len() == 0,
{
    let mut map_cells: Vec<MapCell> = Vec::new();
    let num_of_cells_wide = map_dimensions.width / CELL_SIZE;
    let num_of_cells_tall = map_dimensions.height / CELL_SIZE;
    let mut row: u16 = 0;
    while row < num_of_cells_tall
        invariant
            num_of_cells_wide == map_dimensions.width / 50,
            num_of_cells_tall == map_dimensions.height / 50,
            row <= num_of_cells_tall,
            map_cells@.len() == row * num_of_cells_wide,
            forall|i: int| 0 <= i < map_cells@.len() ==> map_cells@[i].chars_in_cell@.len() == 0,
        decreases num_of_cells_tall - row,
    {
        let mut col: u16 = 0;
        while col < num_of_cells_wide
            invariant
                num_of_cells_wide == map_dimensions.width / 50,
                row < num_of_cells_tall,
                col <= num_of_cells_wide,
                map_cells@.len() == row * num_of_cells_wide + col,
                forall|i: int| 0 <= i < map_cells@.len() ==> map_cells@[i].chars_in_cell@.len() == 0,
            decreases num_of_cells_wide - col,
        {
            map_cells.push(MapCell::new());
            col = col + 1;
        }
        assert(row * num_of_cells_wide + num_of_cells_wide == (row + 1) * num_of_cells_wide) by (nonlinear_arith);
        row = row + 1;
    }
    map_cells
}

/// The diagonal step checked for corner number `k`: 0 north-west, 1
/// north-east, 2 south-east, 3 south-west.
pub open spec fn corner_step(k: int) -> (int, int) {
    if k == 0 {
        (-1, -1)
    } else if k == 1 {
        (1, -1)
    } else if k == 2 {
        (1, 1)
    } else {
        (-1, 1)
    }
}

/// Side `i` of the tile at `(x, y)` is a shore: the neighbour on that side
/// is on the map and is not lake.
pub open spec fn shore_bit(grid: Seq<TileType>, dims: MapDimensions, x: int, y: int, i: int) -> bool {
    let (dx, dy) = cardinal_step(i);
    in_bounds(dims, x + dx, y + dy) && tile_at(grid, dims, x + dx, y + dy) != TileType::Lake
}

/// Corner `k` of the tile at `(x, y)` is an inner corner: the diagonal
/// neighbour is on the map and not lake, while both tiles beside it (sharing
/// a side with `(x, y)`) are lake.
pub open spec fn corner_bit(grid: Seq<TileType>, dims: MapDimensions, x: int, y: int, k: int) -> bool {
    let (dx, dy) = corner_step(k);
    &&& in_bounds(dims, x + dx, y + dy)
    &&& tile_at(grid, dims, x + dx, y + dy) != TileType::Lake
    &&& tile_at(grid, dims, x + dx, y) == TileType::Lake
    &&& tile_at(grid, dims, x, y + dy) == TileType::Lake
}

/// Bit `k` of a mask, when `b` holds.
pub open spec fn bit_if(b: bool, k: int) -> int {
    if b {
        if k == 0 {
            1
        } else if k == 1 {
            2
        } else if k == 2 {
            4
        } else {
            8
        }
    } else {
        0
    }
}

/// The shore mask of a lake tile: bit `i` set for each shore side `i`.
pub open spec fn shore_mask(grid: Seq<TileType>, dims: MapDimensions, x: int, y: int) -> int {
    bit_if(shore_bit(grid, dims, x, y, 0), 0) + bit_if(shore_bit(grid, dims, x, y, 1), 1)
        + bit_if(shore_bit(grid, dims, x, y, 2), 2) + bit_if(shore_bit(grid, dims, x, y, 3), 3)
}

/// The corner mask of a lake tile: bit `k` set for each inner corner `k`.
pub open spec fn corner_mask(grid: Seq<TileType>, dims: MapDimensions, x: int, y: int) -> int {
    bit_if(corner_bit(grid, dims, x, y, 0), 0) + bit_if(corner_bit(grid, dims, x, y, 1), 1)
        + bit_if(corner_bit(grid, dims, x, y, 2), 2) + bit_if(corner_bit(grid, dims, x, y, 3), 3)
}

/// The overlay entry of the point `(x, y)`: its masks when it is lake,
/// nothing otherwise.
pub open spec fn lake_entry(grid: Seq<TileType>, dims: MapDimensions, x: int, y: int) -> Option<LakeSpriteData> {
    if is_tile(grid, dims, x, y, TileType::Lake) {
        Some(
            LakeSpriteData {
                shore_animation_index: shore_mask(grid, dims, x, y) as u8,
                corner_animation_index: corner_mask(grid, dims, x, y) as u8,
            },
        )
    } else {
        None
    }
}

/// The overlay of a lake tile `(x, y)`, bit by bit. Bit 0, 1, 2, 3 of its
/// shore mask is set exactly when the tile to the north, east, south, west
/// is on the map and not lake. Bit 0, 1, 2, 3 of its corner mask (north-west,
/// north-east, south-east, south-west) is set exactly when the diagonal
/// neighbour `(x - 1, y - 1)`, `(x + 1, y - 1)`, `(x + 1, y + 1)`,
/// `(x - 1, y + 1)` is on the map and not lake while the two tiles beside it
/// that share a side with `(x, y)` are lake. No other bit is set.
pub proof fn law_lake_overlay_bits(grid: Seq<TileType>, dims: MapDimensions, x: int, y: int)
    requires
        grid_wf(grid, dims),
        in_bounds(dims, x, y),
        tile_at(grid, dims, x, y) == TileType::Lake,
    ensures
        lake_entry(grid, dims, x, y) is Some,
        ({
            let d = lake_entry(grid, dims, x, y).unwrap();
            let s = d.shore_animation_index as int;
            let c = d.corner_animation_index as int;
            let open = |a: int, b: int| in_bounds(dims, a, b) && tile_at(grid, dims, a, b) != TileType::Lake;
            let lake = |a: int, b: int| tile_at(grid, dims, a, b) == TileType::Lake;
            &&& s < 16
            &&& (s % 2 == 1 <==> open(x, y - 1))
            &&& ((s / 2) % 2 == 1 <==> open(x + 1, y))
            &&& ((s / 4) % 2 == 1 <==> open(x, y + 1))
            &&& ((s / 8) % 2 == 1 <==> open(x - 1, y))
            &&& c < 16
            &&& (c % 2 == 1 <==> open(x - 1, y - 1) && lake(x - 1, y) && lake(x, y - 1))
            &&& ((c / 2) % 2 == 1 <==> open(x + 1, y - 1) && lake(x + 1, y) && lake(x, y - 1))
            &&& ((c / 4) % 2 == 1 <==> open(x + 1, y + 1) && lake(x + 1, y) && lake(x, y + 1))
            &&& ((c / 8) % 2 == 1 <==> open(x - 1, y + 1) && lake(x - 1, y) && lake(x, y + 1))
        }),
{
    let s = shore_mask(grid, dims, x, y);
    let c = corner_mask(grid, dims, x, y);
    assert(0 <= s < 16 && 0 <= c < 16);
    let b0 = corner_bit(grid, dims, x, y, 0);
    let b1 = corner_bit(grid, dims, x, y, 1);
    let b2 = corner_bit(grid, dims, x, y, 2);
    let b3 = corner_bit(grid, dims, x, y, 3);
    assert(c % 2 == 1 <==> b0);
    assert((c / 2) % 2 == 1 <==> b1);
    assert((c / 4) % 2 == 1 <==> b2);
    assert((c / 8) % 2 == 1 <==> b3);
    let h0 = shore_bit(grid, dims, x, y, 0);
    let h1 = shore_bit(grid, dims, x, y, 1);
    let h2 = shore_bit(grid, dims, x, y, 2);
    let h3 = shore_bit(grid, dims, x, y, 3);
    assert(s % 2 == 1 <==> h0);
    assert((s / 2) % 2 == 1 <==> h1);
    assert((s / 4) % 2 == 1 <==> h2);
    assert((s / 8) % 2 == 1 <==> h3);
}

/// Whether side `i` of the on-map tile `(x, y)` is a shore.
fn shore_side(map: &MapTileGrid, dims: MapDimensions, x: i16, y: i16, i: usize) -> (b: bool)
    requires
        grid_wf(map@, dims),
        in_bounds(dims, x as int, y as int),
        i < 4,
    ensures
        b == shore_bit(map@, dims, x as int, y as int, i as int),
{
    proof {
        lemma_as_i16(dims.width);
        lemma_as_i16(dims.height);
    }
    let neighbor = MapCord::new(x, y).plus(cardinal_delta(i));
    if !is_tile_in_bounds(dims, neighbor) {
        return false;
    }
    proof {
        lemma_index_in_grid(dims, neighbor.x as int, neighbor.y as int);
    }
    get_tile_at_cord(map, dims, neighbor) != TileType::Lake
}

/// Whether corner `k` of the on-map tile `(x, y)` is an inner corner.
fn inner_corner(map: &MapTileGrid, dims: MapDimensions, x: i16, y: i16, k: usize) -> (b: bool)
    requires
        grid_wf(map@, dims),
        in_bounds(dims, x as int, y as int),
        k < 4,
    ensures
        b == corner_bit(map@, dims, x as int, y as int, k as int),
{
    proof {
        lemma_as_i16(dims.width);
        lemma_as_i16(dims.height);
    }
    let (cx, cy): (i16, i16) = match k {
        0 => (-1, -1),
        1 => (1, -1),
        2 => (1, 1),
        _ => (-1, 1),
    };
    let diag_x = x + cx;
    let diag_y = y + cy;
    if !is_tile_in_bounds(dims, MapCord::new(diag_x, diag_y)) {
        return false;
    }
    proof {
        lemma_index_in_grid(dims, diag_x as int, diag_y as int);
        lemma_index_in_grid(dims, diag_x as int, y as int);
        lemma_index_in_grid(dims, x as int, diag_y as int);
    }
    if get_tile_from_x_y(map, dims, diag_x, diag_y) == TileType::Lake {
        return false;
    }
    if get_tile_from_x_y(map, dims, diag_x, y) != TileType::Lake
        || get_tile_from_x_y(map, dims, x, diag_y) != TileType::Lake {
        return false;
    }
    true
}

/// The shore and corner masks of the on-map tile `(x, y)`.
fn lake_sprite_data_at(map: &MapTileGrid, dims: MapDimensions, x: i16, y: i16) -> (d: LakeSpriteData)
    requires
        grid_wf(map@, dims),
        in_bounds(dims, x as int, y as int),
    ensures
        d.shore_animation_index == shore_mask(map@, dims, x as int, y as int),
        d.corner_animation_index == corner_mask(map@, dims, x as int, y as int),
{
    let mut shore_bitmask: u8 = 0;
    if shore_side(map, dims, x, y, 0) {
        shore_bitmask = shore_bitmask + 1;
    }
    if shore_side(map, dims, x, y, 1) {
        shore_bitmask = shore_bitmask + 2;
    }
    if shore_side(map, dims, x, y, 2) {
        shore_bitmask = shore_bitmask + 4;
    }
    if shore_side(map, dims, x, y, 3) {
        shore_bitmask = shore_bitmask + 8;
    }
    let mut corner_bitmask: u8 = 0;
    if inner_corner(map, dims, x, y, 0) {
        corner_bitmask = corner_bitmask + 1;
    }
    if inner_corner(map, dims, x, y, 1) {
        corner_bitmask = corner_bitmask + 2;
    }
    if inner_corner(map, dims, x, y, 2) {
        corner_bitmask = corner_bitmask + 4;
    }
    if inner_corner(map, dims, x, y, 3) {
        corner_bitmask = corner_bitmask + 8;
    }
    LakeSpriteData { shore_animation_index: shore_bitmask, corner_animation_index: corner_bitmask }
}

/// Computes the shore and corner overlays of every lake tile. The result has
/// one entry per tile: the masks of the tile when it is lake, nothing
/// otherwise.
pub fn set_lake_shore_and_corner_sprites(map: &MapTileGrid, map_dimensions: MapDimensions) -> (r: LakeSpriteGrid)
    requires
        grid_wf(map@, map_dimensions),
    ensures
        r@.len() == total(map_dimensions),
        forall|x: int, y: int|
            in_bounds(map_dimensions, x, y) ==> #[trigger] r@[tile_index(map_dimensions, x, y)]
                == lake_entry(map@, map_dimensions, x, y),
        forall|i: int| 0 <= i < r@.len() && (#[trigger] r@[i]) is Some ==> map@[i] == TileType::Lake,
{
    let dims = map_dimensions;
    let total_tiles = dims.total_tiles();
    let mut lake_sprite_data: LakeSpriteGrid = vec![None; total_tiles];
    proof {
        lemma_as_i16(dims.width);
        lemma_as_i16(dims.height);
    }
    let h16 = dims.height as i16;
    let w16 = dims.width as i16;
    let mut y: i16 = 0;
    while y < h16
        invariant
            grid_wf(map@, dims),
            h16 as int == crate::map::tile_map::as_i16(dims.height),
            w16 as int == crate::map::tile_map::as_i16(dims.width),
            0 <= y,
            lake_sprite_data@.len() == total(dims),
            forall|xx: int, yy: int|
                in_bounds(dims, xx, yy) && yy < y ==> #[trigger] lake_sprite_data@[tile_index(dims, xx, yy)]
                    == lake_entry(map@, dims, xx, yy),
            forall|i: int|
                0 <= i < lake_sprite_data@.len() && (#[trigger] lake_sprite_data@[i]) is Some
                    ==> map@[i] == TileType::Lake,
        decreases h16 - y,
    {
        let mut x: i16 = 0;
        while x < w16
            invariant
                grid_wf(map@, dims),
                h16 as int == crate::map::tile_map::as_i16(dims.height),
                w16 as int == crate::map::tile_map::as_i16(dims.width),
                0 <= y < h16,
                0 <= x,
                lake_sprite_data@.len() == total(dims),
                forall|xx: int, yy: int|
                    in_bounds(dims, xx, yy) && (yy < y || (yy == y && xx < x))
                        ==> #[trigger] lake_sprite_data@[tile_index(dims, xx, yy)] == lake_entry(map@, dims, xx, yy),
                forall|i: int|
                    0 <= i < lake_sprite_data@.len() && (#[trigger] lake_sprite_data@[i]) is Some
                        ==> map@[i] == TileType::Lake,
            decreases w16 - x,
        {
            proof {
                lemma_index_in_grid(dims, x as int, y as int);
            }
            let current = MapCord::new(x, y);
            let idx = cords_to_index(dims, current);
            if get_tile_at_cord(map, dims, current) == TileType::Lake {
                let data = lake_sprite_data_at(map, dims, x, y);
                let ghost before = lake_sprite_data@;
                lake_sprite_data[idx] = Some(data);
                proof {
                    assert forall|xx: int, yy: int|
                        in_bounds(dims, xx, yy) && (yy < y || (yy == y && xx < x + 1)) implies
                        #[trigger] lake_sprite_data@[tile_index(dims, xx, yy)] == lake_entry(map@, dims, xx, yy) by {
                        lemma_index_in_grid(dims, xx, yy);
                        if tile_index(dims, xx, yy) == idx as int {
                            lemma_index_injective(dims, xx, yy, x as int, y as int);
                            assert(lake_entry(map@, dims, xx, yy) == Some(data));
                        } else {
                            assert(xx != x || yy != y);
                            assert(before[tile_index(dims, xx, yy)] == lake_entry(map@, dims, xx, yy));
                        }
                    }
                }
            } else {
                assert(lake_entry(map@, dims, x as int, y as int) is None);
            }
            x = x + 1;
        }
        y = y + 1;
    }
    lake_sprite_data
}


/// The grid `new` comes from `old` by turning tiles into lake and changing
/// nothing else.
pub open spec fn only_lakes_added(old: Seq<TileType>, new: Seq<TileType>) -> bool {
    &&& new.len() == old.len()
    &&& forall|i: int| 0 <= i < new.len() ==> #[trigger] new[i] == old[i] || new[i] == TileType::Lake
}

/// Every coordinate of `s` is on the map and holds lake in `grid`.
pub open spec fn all_lake_cords(grid: Seq<TileType>, dims: MapDimensions, s: Seq<MapCord>) -> bool {
    forall|k: int|
        0 <= k < s.len() ==> cord_in_bounds(dims, #[trigger] s[k]) && grid[cord_index(dims, s[k])]
            == TileType::Lake
}

/// The grid holds at least one lake tile.
pub open spec fn has_lake_tile(grid: Seq<TileType>) -> bool {
    exists|i: int| 0 <= i < grid.len() && #[trigger] grid[i] == TileType::Lake
}

/// No coordinate of `s` is a lake tile in `grid`.
pub open spec fn none_were_lake(grid: Seq<TileType>, dims: MapDimensions, s: Seq<MapCord>) -> bool {
    forall|k: int| 0 <= k < s.len() ==> grid[cord_index(dims, #[trigger] s[k])] != TileType::Lake
}

/// No coordinate occurs twice in `s`.
pub open spec fn distinct_cords(s: Seq<MapCord>) -> bool {
    forall|i: int, j: int| 0 <= i < j < s.len() ==> #[trigger] s[i] != #[trigger] s[j]
}

/// Appending coordinates that were not lake in `g` to coordinates that were,
/// each list free of repeats, gives a list free of repeats.
proof fn lemma_append_distinct(g: Seq<TileType>, dims: MapDimensions, a: Seq<MapCord>, b: Seq<MapCord>)
    requires
        distinct_cords(a),
        distinct_cords(b),
        all_lake_cords(g, dims, a),
        none_were_lake(g, dims, b),
    ensures
        distinct_cords(a + b),
{
    let c = a + b;
    assert forall|i: int, j: int| 0 <= i < j < c.len() implies #[trigger] c[i] != #[trigger] c[j] by {
        if i < a.len() && j >= a.len() {
            assert(c[i] == a[i]);
            assert(c[j] == b[j - a.len()]);
            assert(g[cord_index(dims, a[i])] == TileType::Lake);
            assert(g[cord_index(dims, b[j - a.len()])] != TileType::Lake);
        } else if j < a.len() {
            assert(c[i] == a[i] && c[j] == a[j]);
        } else {
            assert(c[i] == b[i - a.len()] && c[j] == b[j - a.len()]);
        }
    }
}

proof fn lemma_lake_cords_kept(g1: Seq<TileType>, g2: Seq<TileType>, dims: MapDimensions, s: Seq<MapCord>)
    requires
        grid_wf(g1, dims),
        only_lakes_added(g1, g2),
        all_lake_cords(g1, dims, s),
    ensures
        all_lake_cords(g2, dims, s),
{
    assert forall|k: int| 0 <= k < s.len() implies cord_in_bounds(dims, #[trigger] s[k])
        && g2[cord_index(dims, s[k])] == TileType::Lake by {
        lemma_index_in_grid(dims, s[k].x as int, s[k].y as int);
    }
}

/// The queue after the side draws for `current` from side `i` on, reading
/// draws from `at`: each side, in the order north, east, south, west, is
/// queued with chance 4 in 5. Also where the draws end and whether each
/// answered the question asked there.
pub open spec fn queue_sides(
    current: MapCord,
    queue: Seq<MapCord>,
    i: int,
    ds: Seq<Draw>,
    at: int,
) -> (Seq<MapCord>, int, bool)
    decreases 4 - i,
{
    if i >= 4 {
        (queue, at, true)
    } else {
        match flip_at(ds, at, 4, 5) {
            None => (queue, at, false),
            Some(b) => queue_sides(
                current,
                if b {
                    queue.push(step_spec(current, i))
                } else {
                    queue
                },
                i + 1,
                ds,
                at + 1,
            ),
        }
    }
}

/// The side draws queue at most one tile per side.
pub proof fn lemma_queue_sides_len(current: MapCord, queue: Seq<MapCord>, i: int, ds: Seq<Draw>, at: int)
    requires
        0 <= i <= 4,
    ensures
        queue_sides(current, queue, i, ds, at).0.len() <= queue.len() + 4 - i,
    decreases 4 - i,
{
    if i < 4 {
        match flip_at(ds, at, 4, 5) {
            None => {},
            Some(b) => {
                let q = if b {
                    queue.push(step_spec(current, i))
                } else {
                    queue
                };
                lemma_queue_sides_len(current, q, i + 1, ds, at + 1);
            },
        }
    }
}

/// One lake spreading breadth-first from the tiles in `queue`, with
/// `placed` its tiles so far, until it has `target` tiles or the queue runs
/// out, reading draws from `at`. A queued tile off the map or already lake
/// is skipped; any other becomes lake, and while fewer than `target` tiles
/// wait in the queue its sides are queued by `queue_sides`. The result holds
/// the grid, the lake's tiles in the order they were placed, where the draws
/// end and whether each answered the question asked there.
pub open spec fn lake_spec(
    grid: Seq<TileType>,
    dims: MapDimensions,
    queue: Seq<MapCord>,
    placed: Seq<MapCord>,
    target: int,
    ds: Seq<Draw>,
    at: int,
) -> (Seq<TileType>, Seq<MapCord>, int, bool)
    decreases (target - placed.len()) * 5 + queue.len(),
{
    if queue.len() == 0 || placed.len() >= target {
        (grid, placed, at, true)
    } else {
        let current = queue[0];
        let rest = queue.subrange(1, queue.len() as int);
        if !cord_in_bounds(dims, current) || grid[cord_index(dims, current)] == TileType::Lake {
            lake_spec(grid, dims, rest, placed, target, ds, at)
        } else {
            let g2 = grid.update(cord_index(dims, current), TileType::Lake);
            let p2 = placed.push(current);
            if rest.len() >= target {
                lake_spec(g2, dims, rest, p2, target, ds, at)
            } else {
                let q = queue_sides(current, rest, 0, ds, at);
                if !q.2 {
                    (g2, p2, q.1, false)
                } else {
                    proof {
                        lemma_queue_sides_len(current, rest, 0, ds, at);
                    }
                    lake_spec(g2, dims, q.0, p2, target, ds, q.1)
                }
            }
        }
    }
}

/// `n` lakes one after the other, reading draws from `at`: for each, whether
/// forest (3 in 100) and grass (1 in 4) will surround it, its start column
/// and row, and its target size from 60 to 100; then `lake_spec` from the
/// start tile. The tiles of each lake are appended to `trees` and to `grass`
/// as drawn. The result holds the grid, the two lists, where the draws end
/// and whether each answered the question asked there.
pub open spec fn lakes_spec(
    grid: Seq<TileType>,
    dims: MapDimensions,
    trees: Seq<MapCord>,
    grass: Seq<MapCord>,
    n: int,
    ds: Seq<Draw>,
    at: int,
) -> (Seq<TileType>, Seq<MapCord>, Seq<MapCord>, int, bool)
    decreases n,
{
    if n <= 0 {
        (grid, trees, grass, at, true)
    } else {
        match (
            flip_at(ds, at, 3, 100),
            flip_at(ds, at + 1, 1, 4),
            pick_usize_at(ds, at + 2, 0, (dims.width - 1) as usize),
            pick_usize_at(ds, at + 3, 0, (dims.height - 1) as usize),
            pick_usize_at(ds, at + 4, 60, 100),
        ) {
            (Some(t), Some(g), Some(kx), Some(ky), Some(target)) => {
                let r = lake_spec(
                    grid,
                    dims,
                    seq![MapCord { x: kx as i16, y: ky as i16 }],
                    Seq::empty(),
                    target as int,
                    ds,
                    at + 5,
                );
                if !r.3 {
                    (r.0, trees, grass, r.2, false)
                } else {
                    lakes_spec(
                        r.0,
                        dims,
                        if t {
                            trees + r.1
                        } else {
                            trees
                        },
                        if g {
                            grass + r.1
                        } else {
                            grass
                        },
                        n - 1,
                        ds,
                        r.2,
                    )
                }
            },
            _ => (grid, trees, grass, at, false),
        }
    }
}

/// What is left of the lakes once the current one gives `r`: its tiles
/// appended as drawn, then the `n` lakes after it.
pub open spec fn after_lake(
    r: (Seq<TileType>, Seq<MapCord>, int, bool),
    t: bool,
    g: bool,
    trees: Seq<MapCord>,
    grass: Seq<MapCord>,
    n: int,
    dims: MapDimensions,
    ds: Seq<Draw>,
) -> (Seq<TileType>, Seq<MapCord>, Seq<MapCord>, int, bool) {
    if !r.3 {
        (r.0, trees, grass, r.2, false)
    } else {
        lakes_spec(
            r.0,
            dims,
            if t {
                trees + r.1
            } else {
                trees
            },
            if g {
                grass + r.1
            } else {
                grass
            },
            n,
            ds,
            r.2,
        )
    }
}

/// Grows `num_of_cycles` random lakes. Each lake starts at a random tile and
/// spreads breadth-first to random side neighbours until it has up to 60-100
/// tiles or runs out of candidates. Some lakes are chosen to be surrounded by
/// forest (3 in 100) and some by grass (1 in 4); the tiles of those lakes are
/// returned, forest lakes first.
///
/// Only lake tiles are added to the grid, and every returned coordinate is a
/// lake tile on the map that was not lake before; neither list holds a
/// coordinate twice, and each holds at most 100 per cycle. Every lake starts on a tile
/// of the map when both sides fit in `i16`, so there is then at least one
/// lake tile after the first cycle. Which tiles become lake, for given
/// draws, is stated by `create_lakes_with`.
pub fn create_lakes(
    tile_grid: &mut MapTileGrid,
    map_dimensions: MapDimensions,
    num_of_cycles: i32,
    rng: &mut ThreadRng,
) -> (r: (Vec<MapCord>, Vec<MapCord>))
    requires
        grid_wf(old(tile_grid)@, map_dimensions),
        num_of_cycles > 0 ==> map_dimensions.width > 0 && map_dimensions.height > 0,
    ensures
        only_lakes_added(old(tile_grid)@, final(tile_grid)@),
        all_lake_cords(final(tile_grid)@, map_dimensions, r.0@),
        all_lake_cords(final(tile_grid)@, map_dimensions, r.1@),
        none_were_lake(old(tile_grid)@, map_dimensions, r.0@),
        none_were_lake(old(tile_grid)@, map_dimensions, r.1@),
        distinct_cords(r.0@),
        distinct_cords(r.1@),
        num_of_cycles > 0 ==> r.0@.len() <= 100 * num_of_cycles && r.1@.len() <= 100 * num_of_cycles,
        num_of_cycles <= 0 ==> final(tile_grid)@ == old(tile_grid)@ && r.0@.len() == 0 && r.1@.len() == 0,
        num_of_cycles > 0 && map_dimensions.width <= 32767 && map_dimensions.height <= 32767
            ==> has_lake_tile(final(tile_grid)@),
        exists|ds: Seq<Draw>|
            #[trigger] lakes_spec(old(tile_grid)@, map_dimensions, Seq::empty(), Seq::empty(), num_of_cycles as int, ds, 0)
                == (final(tile_grid)@, r.0@, r.1@, ds.len() as int, true),
{
    let mut draws = RandomDraws::new(rng);
    let r = create_lakes_with(tile_grid, map_dimensions, num_of_cycles, &mut draws);
    proof {
        assert(draws.drawn().skip(0) =~= draws.drawn());
    }
    r
}

/// The lakes of `create_lakes`, with the draws taken from `draws`: the grid
/// and the two lists come out as `lakes_spec` gives them for the draws made.
#[verifier::rlimit(100)]
pub fn create_lakes_with<D: DrawSource>(
    tile_grid: &mut MapTileGrid,
    map_dimensions: MapDimensions,
    num_of_cycles: i32,
    draws: &mut D,
) -> (r: (Vec<MapCord>, Vec<MapCord>))
    requires
        grid_wf(old(tile_grid)@, map_dimensions),
        num_of_cycles > 0 ==> map_dimensions.width > 0 && map_dimensions.height > 0,
    ensures
        only_lakes_added(old(tile_grid)@, final(tile_grid)@),
        all_lake_cords(final(tile_grid)@, map_dimensions, r.0@),
        all_lake_cords(final(tile_grid)@, map_dimensions, r.1@),
        none_were_lake(old(tile_grid)@, map_dimensions, r.0@),
        none_were_lake(old(tile_grid)@, map_dimensions, r.1@),
        distinct_cords(r.0@),
        distinct_cords(r.1@),
        num_of_cycles > 0 ==> r.0@.len() <= 100 * num_of_cycles && r.1@.len() <= 100 * num_of_cycles,
        num_of_cycles <= 0 ==> final(tile_grid)@ == old(tile_grid)@ && r.0@.len() == 0 && r.1@.len() == 0,
        num_of_cycles > 0 && map_dimensions.width <= 32767 && map_dimensions.height <= 32767
            ==> has_lake_tile(final(tile_grid)@),
        final(draws).drawn().len() >= old(draws).drawn().len(),
        final(draws).drawn().take(old(draws).drawn().len() as int) == old(draws).drawn(),
        lakes_spec(
            old(tile_grid)@,
            map_dimensions,
            Seq::empty(),
            Seq::empty(),
            num_of_cycles as int,
            final(draws).drawn().skip(old(draws).drawn().len() as int),
            0,
        ) == (final(tile_grid)@, r.0@, r.1@, final(draws).drawn().len() - old(draws).drawn().len(), true),
        forall|ds: Seq<Draw>|
            #[trigger] starts_with(ds, final(draws).drawn().skip(old(draws).drawn().len() as int)) ==> lakes_spec(
                old(tile_grid)@,
                map_dimensions,
                Seq::empty(),
                Seq::empty(),
                num_of_cycles as int,
                ds,
                0,
            ) == (final(tile_grid)@, r.0@, r.1@, final(draws).drawn().len() - old(draws).drawn().len(), true),
{
    let dims = map_dimensions;
    let ghost original = tile_grid@;
    let ghost d0 = draws.drawn();
    let ghost mut pre: Seq<Draw> = Seq::empty();
    let mut tree_lake_tiles: Vec<MapCord> = Vec::new();
    let mut grass_lake_tiles: Vec<MapCord> = Vec::new();
    proof {
        lemma_as_i16(dims.width);
        lemma_as_i16(dims.height);
        assert(draws.drawn() =~= d0 + pre);
    }
    let ghost fits = dims.width <= 32767 && dims.height <= 32767;
    let ghost mut lake_at: int = 0;
    let mut cycle: i32 = 0;
    while cycle < num_of_cycles
        invariant
            grid_wf(original, dims),
            fits == (dims.width <= 32767 && dims.height <= 32767),
            fits && cycle > 0 ==> 0 <= lake_at < tile_grid@.len() && tile_grid@[lake_at] == TileType::Lake,
            none_were_lake(original, dims, tree_lake_tiles@),
            none_were_lake(original, dims, grass_lake_tiles@),
            distinct_cords(tree_lake_tiles@),
            distinct_cords(grass_lake_tiles@),
            tree_lake_tiles@.len() <= 100 * cycle,
            grass_lake_tiles@.len() <= 100 * cycle,
            num_of_cycles > 0 ==> cycle <= num_of_cycles,
            0 <= cycle,
            num_of_cycles > 0 ==> dims.width > 0 && dims.height > 0,
            only_lakes_added(original, tile_grid@),
            all_lake_cords(tile_grid@, dims, tree_lake_tiles@),
            all_lake_cords(tile_grid@, dims, grass_lake_tiles@),
            num_of_cycles <= 0 ==> tile_grid@ == original && tree_lake_tiles@.len() == 0
                && grass_lake_tiles@.len() == 0,
            draws.drawn() == d0 + pre,
            forall|ds: Seq<Draw>| #[trigger] starts_with(ds, pre) ==> lakes_spec(
                original,
                dims,
                Seq::empty(),
                Seq::empty(),
                num_of_cycles as int,
                ds,
                0,
            ) == lakes_spec(
                tile_grid@,
                dims,
                tree_lake_tiles@,
                grass_lake_tiles@,
                num_of_cycles - cycle,
                ds,
                pre.len() as int,
            ),
        decreases num_of_cycles - cycle,
    {
        let ghost pre0 = pre;
        let ghost at0 = pre.len() as int;
        let is_surrounded_by_trees = draws.chance(3, 100);
        let is_surrounded_by_grass = draws.chance(1, 4);
        let total_tiles = dims.total_tiles();
        proof {
            let w = dims.width as int;
            let h = dims.height as int;
            assert((w * h) / h == w && (w * h) / w == h) by (nonlinear_arith)
                requires
                    w > 0,
                    h > 0,
            ;
        }
        let kx = draws.pick_usize(0, total_tiles / dims.height as usize - 1);
        let ky = draws.pick_usize(0, total_tiles / dims.width as usize - 1);
        let start_x = #[verifier::truncate] (kx as i16);
        let start_y = #[verifier::truncate] (ky as i16);
        proof {
            if fits {
                assert((kx as i16) as int == kx as int) by (bit_vector)
                    requires
                        kx < 32767,
                ;
                assert((ky as i16) as int == ky as int) by (bit_vector)
                    requires
                        ky < 32767,
                ;
            }
        }
        let target_lake_size = draws.pick_usize(60, 100);
        proof {
            pre = pre.push(Draw::Flip { numerator: 3, denominator: 100, outcome: is_surrounded_by_trees }).push(
                Draw::Flip { numerator: 1, denominator: 4, outcome: is_surrounded_by_grass },
            ).push(Draw::PickUsize { lo: 0, hi: (dims.width - 1) as usize, value: kx }).push(
                Draw::PickUsize { lo: 0, hi: (dims.height - 1) as usize, value: ky },
            ).push(Draw::PickUsize { lo: 60, hi: 100, value: target_lake_size });
            assert(draws.drawn() =~= d0 + pre);
        }
        let mut tiles_placed: usize = 0;
        let mut next_tiles: VecDeque<MapCord> = VecDeque::new();
        let start_cord = MapCord::new(start_x, start_y);
        next_tiles.push_back(start_cord);
        let mut lake_tiles: Vec<MapCord> = Vec::with_capacity(100);
        let ghost cycle_start = tile_grid@;
        let ghost trees0 = tree_lake_tiles@;
        let ghost grass0 = grass_lake_tiles@;
        let ghost rest_lakes = num_of_cycles - cycle - 1;
        proof {
            assert forall|ds: Seq<Draw>| #[trigger] starts_with(ds, pre) implies lakes_spec(
                original,
                dims,
                Seq::empty(),
                Seq::empty(),
                num_of_cycles as int,
                ds,
                0,
            ) == after_lake(
                lake_spec(tile_grid@, dims, next_tiles@, lake_tiles@, target_lake_size as int, ds, pre.len() as int),
                is_surrounded_by_trees,
                is_surrounded_by_grass,
                trees0,
                grass0,
                rest_lakes,
                dims,
                ds,
            ) by {
                assert(pre.take(at0) =~= pre0);
                lemma_starts_with_take(ds, pre, at0);
                assert(ds[at0] == pre[at0] && ds[at0 + 1] == pre[at0 + 1] && ds[at0 + 2] == pre[at0 + 2]);
                assert(ds[at0 + 3] == pre[at0 + 3] && ds[at0 + 4] == pre[at0 + 4]);
                assert(next_tiles@ =~= seq![MapCord { x: kx as i16, y: ky as i16 }]);
            }
        }
        while next_tiles.len() > 0 && tiles_placed < target_lake_size
            invariant
                grid_wf(original, dims),
                only_lakes_added(original, tile_grid@),
                only_lakes_added(cycle_start, tile_grid@),
                all_lake_cords(tile_grid@, dims, tree_lake_tiles@),
                all_lake_cords(tile_grid@, dims, grass_lake_tiles@),
                all_lake_cords(tile_grid@, dims, lake_tiles@),
                none_were_lake(original, dims, tree_lake_tiles@),
                none_were_lake(original, dims, grass_lake_tiles@),
                none_were_lake(original, dims, lake_tiles@),
                none_were_lake(cycle_start, dims, lake_tiles@),
                all_lake_cords(cycle_start, dims, tree_lake_tiles@),
                all_lake_cords(cycle_start, dims, grass_lake_tiles@),
                distinct_cords(tree_lake_tiles@),
                distinct_cords(grass_lake_tiles@),
                distinct_cords(lake_tiles@),
                lake_tiles@.len() == tiles_placed,
                tree_lake_tiles@.len() <= 100 * cycle,
                grass_lake_tiles@.len() <= 100 * cycle,
                grid_wf(cycle_start, dims),
                (0 <= lake_at < tile_grid@.len() && tile_grid@[lake_at] == TileType::Lake) || !fits || (
                tiles_placed == 0 && next_tiles@ == seq![start_cord] && cord_in_bounds(dims, start_cord)),
                tiles_placed <= target_lake_size,
                60 <= target_lake_size <= 100,
                next_tiles@.len() <= 4 * target_lake_size + 1,
                trees0 == tree_lake_tiles@,
                grass0 == grass_lake_tiles@,
                draws.drawn() == d0 + pre,
                forall|ds: Seq<Draw>| #[trigger] starts_with(ds, pre) ==> lakes_spec(
                    original,
                    dims,
                    Seq::empty(),
                    Seq::empty(),
                    num_of_cycles as int,
                    ds,
                    0,
                ) == after_lake(
                    lake_spec(tile_grid@, dims, next_tiles@, lake_tiles@, target_lake_size as int, ds, pre.len() as int),
                    is_surrounded_by_trees,
                    is_surrounded_by_grass,
                    trees0,
                    grass0,
                    rest_lakes,
                    dims,
                    ds,
                ),
            ensures
                (0 <= lake_at < tile_grid@.len() && tile_grid@[lake_at] == TileType::Lake) || !fits,
                next_tiles@.len() == 0 || tiles_placed >= target_lake_size,
            decreases (target_lake_size - tiles_placed) * 5 + next_tiles@.len(),
        {
            let ghost queue0 = next_tiles@;
            let ghost grid0 = tile_grid@;
            let current = match next_tiles.pop_front() {
                Some(c) => c,
                None => { break; },
            };
            let ghost rest = next_tiles@;
            proof {
                assert(rest =~= queue0.subrange(1, queue0.len() as int));
            }
            if !is_tile_in_bounds(dims, current) {
                proof {
                    assert forall|ds: Seq<Draw>| #[trigger] starts_with(ds, pre) implies lakes_spec(
                    original,
                    dims,
                    Seq::empty(),
                    Seq::empty(),
                    num_of_cycles as int,
                    ds,
                    0,
                ) == after_lake(
                    lake_spec(tile_grid@, dims, next_tiles@, lake_tiles@, target_lake_size as int, ds, pre.len() as int),
                    is_surrounded_by_trees,
                    is_surrounded_by_grass,
                    trees0,
                    grass0,
                    rest_lakes,
                    dims,
                    ds,
                ) by {
                        assert(lake_spec(grid0, dims, queue0, lake_tiles@, target_lake_size as int, ds, pre.len() as int)
                            == lake_spec(grid0, dims, rest, lake_tiles@, target_lake_size as int, ds, pre.len() as int));
                    }
                }
                continue;
            }
            proof {
                lemma_index_in_grid(dims, current.x as int, current.y as int);
            }
            if get_tile_at_cord(tile_grid, dims, current) == TileType::Lake {
                proof {
                    lake_at = cord_index(dims, current);
                    assert forall|ds: Seq<Draw>| #[trigger] starts_with(ds, pre) implies lakes_spec(
                    original,
                    dims,
                    Seq::empty(),
                    Seq::empty(),
                    num_of_cycles as int,
                    ds,
                    0,
                ) == after_lake(
                    lake_spec(tile_grid@, dims, next_tiles@, lake_tiles@, target_lake_size as int, ds, pre.len() as int),
                    is_surrounded_by_trees,
                    is_surrounded_by_grass,
                    trees0,
                    grass0,
                    rest_lakes,
                    dims,
                    ds,
                ) by {
                        assert(lake_spec(grid0, dims, queue0, lake_tiles@, target_lake_size as int, ds, pre.len() as int)
                            == lake_spec(grid0, dims, rest, lake_tiles@, target_lake_size as int, ds, pre.len() as int));
                    }
                }
                continue;
            }
            let tile_index = cords_to_index(dims, current);
            let ghost before = tile_grid@;
            let ghost placed0 = lake_tiles@;
            proof {
                assert(before[tile_index as int] == original[tile_index as int] || before[tile_index as int]
                    == TileType::Lake);
                assert(before[tile_index as int] == cycle_start[tile_index as int] || before[tile_index as int]
                    == TileType::Lake);
                assert forall|k: int| 0 <= k < lake_tiles@.len() implies lake_tiles@[k] != current by {
                    assert(before[cord_index(dims, lake_tiles@[k])] == TileType::Lake);
                }
            }
            tile_grid[tile_index] = TileType::Lake;
            proof {
                lake_at = tile_index as int;
                lemma_lake_cords_kept(before, tile_grid@, dims, tree_lake_tiles@);
                lemma_lake_cords_kept(before, tile_grid@, dims, grass_lake_tiles@);
                lemma_lake_cords_kept(before, tile_grid@, dims, lake_tiles@);
            }
            lake_tiles.push(current);
            tiles_placed = tiles_placed + 1;
            proof {
                assert(tile_grid@ == grid0.update(cord_index(dims, current), TileType::Lake));
                assert(lake_tiles@ == placed0.push(current));
            }
            if next_tiles.len() >= target_lake_size {
                proof {
                    assert forall|ds: Seq<Draw>| #[trigger] starts_with(ds, pre) implies lakes_spec(
                    original,
                    dims,
                    Seq::empty(),
                    Seq::empty(),
                    num_of_cycles as int,
                    ds,
                    0,
                ) == after_lake(
                    lake_spec(tile_grid@, dims, next_tiles@, lake_tiles@, target_lake_size as int, ds, pre.len() as int),
                    is_surrounded_by_trees,
                    is_surrounded_by_grass,
                    trees0,
                    grass0,
                    rest_lakes,
                    dims,
                    ds,
                ) by {
                        assert(lake_spec(grid0, dims, queue0, placed0, target_lake_size as int, ds, pre.len() as int)
                            == lake_spec(tile_grid@, dims, rest, lake_tiles@, target_lake_size as int, ds, pre.len() as int));
                    }
                }
                continue;
            }
            let ghost len_before = next_tiles@.len();
            let ghost at1 = pre.len() as int;
            let ghost pre_s = pre;
            proof {
                lemma_starts_with_push(pre, Draw::Flip { numerator: 4, denominator: 5, outcome: false });
            }
            let mut i: usize = 0;
            while i < 4
                invariant
                    cord_in_bounds(dims, current),
                    0 <= current.x < 32767,
                    0 <= current.y < 32767,
                    grid_wf(original, dims),
                    i <= 4,
                    len_before < target_lake_size,
                    next_tiles@.len() <= len_before + i,
                    draws.drawn() == d0 + pre,
                    pre.len() == at1 + i,
                    at1 == pre_s.len(),
                    starts_with(pre, pre_s),
                    forall|ds: Seq<Draw>| #[trigger] starts_with(ds, pre) ==> queue_sides(current, rest, 0, ds, at1)
                        == queue_sides(current, next_tiles@, i as int, ds, pre.len() as int),
                decreases 4 - i,
            {
                let ghost pre1 = pre;
                let ghost q1 = next_tiles@;
                let b = draws.chance(4, 5);
                proof {
                    pre = pre.push(Draw::Flip { numerator: 4, denominator: 5, outcome: b });
                    assert(draws.drawn() =~= d0 + pre);
                    lemma_starts_with_push(pre1, Draw::Flip { numerator: 4, denominator: 5, outcome: b });
                    lemma_starts_with_trans(pre, pre1, pre_s);
                }
                if b {
                    let n = step(current, dims, i);
                    next_tiles.push_back(n);
                }
                proof {
                    assert forall|ds: Seq<Draw>| #[trigger] starts_with(ds, pre) implies queue_sides(
                        current,
                        rest,
                        0,
                        ds,
                        at1,
                    ) == queue_sides(current, next_tiles@, i + 1, ds, pre.len() as int) by {
                        lemma_starts_with_push(pre1, Draw::Flip { numerator: 4, denominator: 5, outcome: b });
                        lemma_starts_with_trans(ds, pre, pre1);
                        assert(ds[pre1.len() as int] == pre[pre1.len() as int]);
                    }
                }
                i = i + 1;
            }
            proof {
                assert forall|ds: Seq<Draw>| #[trigger] starts_with(ds, pre) implies lakes_spec(
                    original,
                    dims,
                    Seq::empty(),
                    Seq::empty(),
                    num_of_cycles as int,
                    ds,
                    0,
                ) == after_lake(
                    lake_spec(tile_grid@, dims, next_tiles@, lake_tiles@, target_lake_size as int, ds, pre.len() as int),
                    is_surrounded_by_trees,
                    is_surrounded_by_grass,
                    trees0,
                    grass0,
                    rest_lakes,
                    dims,
                    ds,
                ) by {
                    lemma_starts_with_trans(ds, pre, pre_s);
                    assert(queue_sides(current, rest, 0, ds, at1) == (next_tiles@, pre.len() as int, true));
                    assert(lake_spec(grid0, dims, queue0, placed0, target_lake_size as int, ds, at1)
                        == lake_spec(tile_grid@, dims, next_tiles@, lake_tiles@, target_lake_size as int, ds, pre.len() as int));
                }
            }
        }
        let ghost lake_done = lake_tiles@;
        if is_surrounded_by_trees {
            let mut lake_copy = lake_tiles.clone();
            proof {
                lemma_append_distinct(cycle_start, dims, tree_lake_tiles@, lake_copy@);
            }
            tree_lake_tiles.append(&mut lake_copy);
        }
        if is_surrounded_by_grass {
            proof {
                lemma_append_distinct(cycle_start, dims, grass_lake_tiles@, lake_tiles@);
            }
            grass_lake_tiles.append(&mut lake_tiles);
        }
        proof {
            assert(tree_lake_tiles@ == if is_surrounded_by_trees {
                trees0 + lake_done
            } else {
                trees0
            });
            assert(grass_lake_tiles@ == if is_surrounded_by_grass {
                grass0 + lake_done
            } else {
                grass0
            });
            assert forall|ds: Seq<Draw>| #[trigger] starts_with(ds, pre) implies lakes_spec(
                original,
                dims,
                Seq::empty(),
                Seq::empty(),
                num_of_cycles as int,
                ds,
                0,
            ) == lakes_spec(
                tile_grid@,
                dims,
                tree_lake_tiles@,
                grass_lake_tiles@,
                rest_lakes,
                ds,
                pre.len() as int,
            ) by {
                assert(lake_spec(tile_grid@, dims, next_tiles@, lake_done, target_lake_size as int, ds, pre.len() as int)
                    == (tile_grid@, lake_done, pre.len() as int, true));
            }
        }
        cycle = cycle + 1;
    }
    proof {
        assert(draws.drawn().skip(d0.len() as int) =~= pre);
        assert(draws.drawn().take(d0.len() as int) =~= d0);
        lemma_starts_with_push(pre, Draw::Flip { numerator: 0, denominator: 1, outcome: false });
    }
    (tree_lake_tiles, grass_lake_tiles)
}

/// A flow grid for `dims` with no flow direction recorded.
pub open spec fn no_flows(dims: MapDimensions) -> Seq<Option<Direction>> {
    Seq::new(total(dims) as nat, |i: int| None::<Direction>)
}

/// The flow direction of each river tile, one entry per tile in row-major
/// order; only river tiles have an entry.
pub type RiverGrid = Vec<Option<Direction>>;

/// The grid `new` comes from `old` by turning tiles into river and changing
/// nothing else.
pub open spec fn only_rivers_added(old: Seq<TileType>, new: Seq<TileType>) -> bool {
    &&& new.len() == old.len()
    &&& forall|i: int| 0 <= i < new.len() ==> #[trigger] new[i] == old[i] || new[i] == TileType::River
}

/// Every tile with a flow direction is a river tile.
pub open spec fn rivers_consistent(map: Seq<TileType>, rivers: Seq<Option<Direction>>) -> bool {
    &&& rivers.len() == map.len()
    &&& forall|i: int| 0 <= i < rivers.len() && (#[trigger] rivers[i]) is Some ==> map[i] == TileType::River
}

/// Every river tile of `map` that was not a river tile in `old` has a flow
/// direction.
pub open spec fn new_rivers_recorded(old: Seq<TileType>, map: Seq<TileType>, rivers: Seq<Option<Direction>>) -> bool {
    forall|i: int|
        0 <= i < map.len() && #[trigger] map[i] == TileType::River && old[i] != TileType::River
            ==> rivers[i] is Some
}

/// Every lake tile has lake overlay data.
pub open spec fn lakes_have_data(map: Seq<TileType>, lake_data: Seq<Option<LakeSpriteData>>) -> bool {
    &&& lake_data.len() == map.len()
    &&& forall|i: int| 0 <= i < map.len() && #[trigger] map[i] == TileType::Lake ==> lake_data[i] is Some
}

/// Every coordinate of a river in progress is on the map.
pub open spec fn river_on_map(dims: MapDimensions, river: Seq<(MapCord, Direction)>) -> bool {
    forall|k: int| 0 <= k < river.len() ==> cord_in_bounds(dims, (#[trigger] river[k]).0)
}

/// The map and flow directions after every tile of `river`, in order, is
/// made river with its direction.
pub open spec fn add_river_spec(
    m: Seq<TileType>,
    r: Seq<Option<Direction>>,
    dims: MapDimensions,
    river: Seq<(MapCord, Direction)>,
) -> (Seq<TileType>, Seq<Option<Direction>>)
    decreases river.len(),
{
    if river.len() == 0 {
        (m, r)
    } else {
        let p = add_river_spec(m, r, dims, river.drop_last());
        let i = cord_index(dims, river.last().0);
        (p.0.update(i, TileType::River), p.1.update(i, Some(river.last().1)))
    }
}

/// Entry `k` of `river` is the last one on its coordinate.
pub open spec fn last_on_cord(river: Seq<(MapCord, Direction)>, k: int) -> bool {
    forall|j: int| k < j < river.len() ==> (#[trigger] river[j]).0 != river[k].0
}

/// No entry of `river` lies on the tile with index `i`.
pub open spec fn off_river(dims: MapDimensions, river: Seq<(MapCord, Direction)>, i: int) -> bool {
    forall|k: int| 0 <= k < river.len() ==> cord_index(dims, (#[trigger] river[k]).0) != i
}

/// Turns every tile of `current_river` into river and records its flow
/// direction in `all_rivers` (the last entry on a coordinate wins); nothing
/// else changes.
pub fn add_river(
    current_river: &Vec<(MapCord, Direction)>,
    all_rivers: &mut RiverGrid,
    map: &mut MapTileGrid,
    map_dimensions: MapDimensions,
)
    requires
        grid_wf(old(map)@, map_dimensions),
        old(all_rivers)@.len() == old(map)@.len(),
        river_on_map(map_dimensions, current_river@),
    ensures
        only_rivers_added(old(map)@, final(map)@),
        final(all_rivers)@.len() == old(all_rivers)@.len(),
        forall|k: int|
            0 <= k < current_river@.len() ==> {
                let i = cord_index(map_dimensions, (#[trigger] current_river@[k]).0);
                final(map)@[i] == TileType::River && final(all_rivers)@[i] is Some
            },
        forall|i: int|
            0 <= i < final(map)@.len() ==> (#[trigger] final(all_rivers)@[i] == old(all_rivers)@[i] && final(map)@[i]
                == old(map)@[i]) || (final(map)@[i] == TileType::River && final(all_rivers)@[i] is Some),
        forall|k: int|
            0 <= k < current_river@.len() && last_on_cord(current_river@, k) ==> final(all_rivers)@[cord_index(
                map_dimensions,
                (#[trigger] current_river@[k]).0,
            )] == Some(current_river@[k].1),
        forall|i: int|
            0 <= i < final(map)@.len() && off_river(map_dimensions, current_river@, i) ==> #[trigger] final(map)@[i]
                == old(map)@[i] && final(all_rivers)@[i] == old(all_rivers)@[i],
        (final(map)@, final(all_rivers)@) == add_river_spec(old(map)@, old(all_rivers)@, map_dimensions, current_river@),
{
    let n = current_river.len();
    let mut k: usize = 0;
    while k < n
        invariant
            n == current_river@.len(),
            k <= n,
            grid_wf(map@, map_dimensions),
            all_rivers@.len() == map@.len(),
            map@.len() == old(map)@.len(),
            river_on_map(map_dimensions, current_river@),
            only_rivers_added(old(map)@, map@),
            forall|j: int|
                0 <= j < k ==> {
                    let i = cord_index(map_dimensions, (#[trigger] current_river@[j]).0);
                    map@[i] == TileType::River && all_rivers@[i] is Some
                },
            forall|i: int|
                0 <= i < map@.len() ==> (#[trigger] all_rivers@[i] == old(all_rivers)@[i] && map@[i]
                    == old(map)@[i]) || (map@[i] == TileType::River && all_rivers@[i] is Some),
            forall|j: int|
                0 <= j < k && last_on_cord(current_river@.take(k as int), j) ==> all_rivers@[cord_index(
                    map_dimensions,
                    (#[trigger] current_river@[j]).0,
                )] == Some(current_river@[j].1),
            forall|i: int|
                0 <= i < map@.len() && off_river(map_dimensions, current_river@.take(k as int), i) ==> #[trigger] map@[i]
                    == old(map)@[i] && all_rivers@[i] == old(all_rivers)@[i],
            (map@, all_rivers@) == add_river_spec(old(map)@, old(all_rivers)@, map_dimensions, current_river@.take(k as int)),
        decreases n - k,
    {
        let (cord, dir) = current_river[k];
        proof {
            lemma_index_in_grid(map_dimensions, cord.x as int, cord.y as int);
        }
        let idx = cords_to_index(map_dimensions, cord);
        map[idx] = TileType::River;
        all_rivers[idx] = Some(dir);
        proof {
            assert forall|j: int| 0 <= j < k + 1 implies {
                let i = cord_index(map_dimensions, (#[trigger] current_river@[j]).0);
                map@[i] == TileType::River && all_rivers@[i] is Some
            } by {
                let c = current_river@[j].0;
                lemma_index_in_grid(map_dimensions, c.x as int, c.y as int);
            }
            let t0 = current_river@.take(k as int);
            let t1 = current_river@.take(k + 1);
            assert(t1.drop_last() =~= t0);
            assert(t1.last() == (cord, dir));
            assert forall|j: int|
                0 <= j < k + 1 && last_on_cord(t1, j) implies all_rivers@[cord_index(
                map_dimensions,
                (#[trigger] current_river@[j]).0,
            )] == Some(current_river@[j].1) by {
                if j < k {
                    assert(t1[k as int] == current_river@[k as int]);
                    let c = current_river@[j].0;
                    lemma_index_in_grid(map_dimensions, c.x as int, c.y as int);
                    if cord_index(map_dimensions, c) == idx as int {
                        lemma_index_injective(map_dimensions, c.x as int, c.y as int, cord.x as int, cord.y as int);
                        assert(false);
                    }
                    assert forall|j2: int| j < j2 < t0.len() implies (#[trigger] t0[j2]).0 != t0[j].0 by {
                        assert(t0[j2] == t1[j2]);
                    }
                }
            }
            assert forall|i: int|
                0 <= i < map@.len() && off_river(map_dimensions, t1, i) implies #[trigger] map@[i] == old(map)@[i]
                && all_rivers@[i] == old(all_rivers)@[i] by {
                assert(t1[k as int] == current_river@[k as int]);
                assert forall|j: int| 0 <= j < t0.len() implies cord_index(map_dimensions, (#[trigger] t0[j]).0) != i by {
                    assert(t0[j] == t1[j]);
                }
            }
        }
        k = k + 1;
    }
    proof {
        assert(current_river@.take(n as int) =~= current_river@);
    }
}


/// Whether a river in progress already holds the coordinate `c`.
fn river_contains(river: &Vec<(MapCord, Direction)>, c: MapCord) -> (b: bool)
    ensures
        b == exists|k: int| 0 <= k < river@.len() && (#[trigger] river@[k]).0 == c,
{
    let n = river.len();
    let mut k: usize = 0;
    while k < n
        invariant
            n == river@.len(),
            k <= n,
            forall|j: int| 0 <= j < k ==> (#[trigger] river@[j]).0 != c,
        decreases n - k,
    {
        if river[k].0 == c {
            return true;
        }
        k = k + 1;
    }
    false
}

/// The tile at `c` when `c` is on the map.
fn tile_if_on_map(map: &MapTileGrid, dims: MapDimensions, c: MapCord) -> (t: Option<TileType>)
    requires
        grid_wf(map@, dims),
    ensures
        t is None <==> !cord_in_bounds(dims, c),
        t matches Some(tt) ==> tt == map@[cord_index(dims, c)],
{
    if !is_tile_in_bounds(dims, c) {
        return None;
    }
    proof {
        lemma_index_in_grid(dims, c.x as int, c.y as int);
    }
    Some(get_tile_at_cord(map, dims, c))
}

/// The neighbour of the on-map tile `c` in direction number `i`.
fn step(c: MapCord, dims: MapDimensions, i: usize) -> (n: MapCord)
    requires
        cord_in_bounds(dims, c),
        i < 4,
    ensures
        (n.x - c.x, n.y - c.y) == cardinal_step(i as int),
        n == step_spec(c, i as int),
{
    proof {
        lemma_as_i16(dims.width);
        lemma_as_i16(dims.height);
    }
    c.plus(cardinal_delta(i))
}

/// The neighbour of `c` in direction number `i` (0 north, then clockwise).
pub open spec fn step_spec(c: MapCord, i: int) -> MapCord {
    let (dx, dy) = cardinal_step(i);
    MapCord { x: (c.x + dx) as i16, y: (c.y + dy) as i16 }
}

/// Side `i` of the point `(x, y)` lies on the map.
pub open spec fn side_on_map(dims: MapDimensions, x: int, y: int, i: int) -> bool {
    let (dx, dy) = cardinal_step(i);
    in_bounds(dims, x + dx, y + dy)
}

/// The first side of `(x, y)`, in the order north, east, south, west, that
/// lies off the map; 4 when all four are on it.
pub open spec fn first_side_off_map(dims: MapDimensions, x: int, y: int) -> int {
    if !side_on_map(dims, x, y, 0) {
        0
    } else if !side_on_map(dims, x, y, 1) {
        1
    } else if !side_on_map(dims, x, y, 2) {
        2
    } else if !side_on_map(dims, x, y, 3) {
        3
    } else {
        4
    }
}

/// Side `i` of the point `(x, y)` is a lake tile on the map.
pub open spec fn lake_side(map: Seq<TileType>, dims: MapDimensions, x: int, y: int, i: int) -> bool {
    let (dx, dy) = cardinal_step(i);
    is_tile(map, dims, x + dx, y + dy, TileType::Lake)
}

/// How many of the sides numbered below `k` of `(x, y)` are lake tiles.
pub open spec fn lake_sides_below(map: Seq<TileType>, dims: MapDimensions, x: int, y: int, k: int) -> int {
    (if 0 < k && lake_side(map, dims, x, y, 0) { 1int } else { 0 })
        + (if 1 < k && lake_side(map, dims, x, y, 1) { 1int } else { 0 })
        + (if 2 < k && lake_side(map, dims, x, y, 2) { 1int } else { 0 })
        + (if 3 < k && lake_side(map, dims, x, y, 3) { 1int } else { 0 })
}

/// How many of the sides numbered below `k` of `(x, y)` are river tiles.
pub open spec fn river_sides_below(map: Seq<TileType>, dims: MapDimensions, x: int, y: int, k: int) -> int {
    (if 0 < k && river_side(map, dims, x, y, 0) { 1int } else { 0 })
        + (if 1 < k && river_side(map, dims, x, y, 1) { 1int } else { 0 })
        + (if 2 < k && river_side(map, dims, x, y, 2) { 1int } else { 0 })
        + (if 3 < k && river_side(map, dims, x, y, 3) { 1int } else { 0 })
}

/// How many sides of the on-map tile `c` are lake, or 4 as soon as a side is
/// off the map.
fn lake_sides(map: &MapTileGrid, dims: MapDimensions, c: MapCord) -> (n: u32)
    requires
        grid_wf(map@, dims),
        cord_in_bounds(dims, c),
    ensures
        n == (if first_side_off_map(dims, c.x as int, c.y as int) < 4 {
            4
        } else {
            lake_sides_below(map@, dims, c.x as int, c.y as int, 4)
        }),
        n <= 4,
{
    let mut counter: u32 = 0;
    let mut i: usize = 0;
    while i < 4
        invariant
            grid_wf(map@, dims),
            cord_in_bounds(dims, c),
            i <= 4,
            i <= first_side_off_map(dims, c.x as int, c.y as int),
            counter == lake_sides_below(map@, dims, c.x as int, c.y as int, i as int),
        decreases 4 - i,
    {
        let t = step(c, dims, i);
        match tile_if_on_map(map, dims, t) {
            None => {
                return 4;
            },
            Some(TileType::Lake) => {
                counter = counter + 1;
            },
            Some(_) => {},
        }
        i = i + 1;
    }
    counter
}

/// How many sides of the on-map tile `c` are river, counting in the order
/// north, east, south, west and stopping at the first side off the map.
fn river_sides(map: &MapTileGrid, dims: MapDimensions, c: MapCord) -> (n: u32)
    requires
        grid_wf(map@, dims),
        cord_in_bounds(dims, c),
    ensures
        n == river_sides_below(map@, dims, c.x as int, c.y as int, first_side_off_map(dims, c.x as int, c.y as int)),
        n <= 4,
{
    let mut counter: u32 = 0;
    let mut i: usize = 0;
    while i < 4
        invariant
            grid_wf(map@, dims),
            cord_in_bounds(dims, c),
            i <= 4,
            i <= first_side_off_map(dims, c.x as int, c.y as int),
            counter == river_sides_below(map@, dims, c.x as int, c.y as int, i as int),
        ensures
            counter == river_sides_below(map@, dims, c.x as int, c.y as int, first_side_off_map(dims, c.x as int, c.y as int)),
        decreases 4 - i,
    {
        let r = step(c, dims, i);
        match tile_if_on_map(map, dims, r) {
            None => {
                break;
            },
            Some(TileType::River) => {
                counter = counter + 1;
            },
            Some(_) => {},
        }
        i = i + 1;
    }
    counter
}

/// Invariant of the river walk: the river in progress is on the map, holds
/// no coordinate twice (tracked by the set of its indices, which bounds its
/// length by the size of the map), and the map, flow directions and lake
/// data agree.
pub open spec fn walk_inv(
    original: Seq<TileType>,
    map: Seq<TileType>,
    rivers: Seq<Option<Direction>>,
    lake_data: Seq<Option<LakeSpriteData>>,
    dims: MapDimensions,
    river: Seq<(MapCord, Direction)>,
    seen: Set<int>,
) -> bool {
    &&& grid_wf(map, dims)
    &&& only_rivers_added(original, map)
    &&& rivers_consistent(map, rivers)
    &&& new_rivers_recorded(original, map, rivers)
    &&& lakes_have_data(map, lake_data)
    &&& river_on_map(dims, river)
    &&& seen.finite()
    &&& seen.len() == river.len()
    &&& seen.subset_of(vstd::set_lib::set_int_range(0, total(dims)))
    &&& forall|k: int| 0 <= k < river.len() ==> seen.contains(cord_index(dims, (#[trigger] river[k]).0))
    &&& forall|i: int|
        #[trigger] seen.contains(i) ==> exists|k: int| 0 <= k < river.len() && cord_index(dims, river[k].0) == i
}

/// Appending a coordinate that is on the map and not yet in the river keeps
/// the index-set bookkeeping of the walk, with the coordinate's index added.
proof fn lemma_push_new_cord(
    dims: MapDimensions,
    river: Seq<(MapCord, Direction)>,
    seen: Set<int>,
    c: MapCord,
    d: Direction,
) -> (seen2: Set<int>)
    requires
        river_on_map(dims, river),
        seen.finite(),
        seen.len() == river.len(),
        seen.subset_of(vstd::set_lib::set_int_range(0, total(dims))),
        forall|k: int| 0 <= k < river.len() ==> seen.contains(cord_index(dims, (#[trigger] river[k]).0)),
        forall|i: int|
            #[trigger] seen.contains(i) ==> exists|k: int| 0 <= k < river.len() && cord_index(dims, river[k].0) == i,
        cord_in_bounds(dims, c),
        forall|k: int| 0 <= k < river.len() ==> (#[trigger] river[k]).0 != c,
    ensures
        river_on_map(dims, river.push((c, d))),
        seen2.finite(),
        seen2.len() == river.len() + 1,
        seen2.len() <= total(dims),
        seen2.subset_of(vstd::set_lib::set_int_range(0, total(dims))),
        forall|k: int|
            0 <= k < river.len() + 1 ==> seen2.contains(cord_index(dims, (#[trigger] river.push((c, d))[k]).0)),
        forall|i: int|
            #[trigger] seen2.contains(i) ==> exists|k: int|
                0 <= k < river.len() + 1 && cord_index(dims, river.push((c, d))[k].0) == i,
{
    let r2 = river.push((c, d));
    lemma_index_in_grid(dims, c.x as int, c.y as int);
    let ni = cord_index(dims, c);
    if seen.contains(ni) {
        let k = choose|k: int| 0 <= k < river.len() && cord_index(dims, river[k].0) == ni;
        let ck = river[k].0;
        lemma_index_injective(dims, ck.x as int, ck.y as int, c.x as int, c.y as int);
        assert(river[k].0 == c);
    }
    let seen2 = seen.insert(ni);
    assert(r2[river.len() as int].0 == c);
    assert forall|i: int| #[trigger] seen2.contains(i) implies exists|k: int|
        0 <= k < river.len() + 1 && cord_index(dims, r2[k].0) == i by {
        if i == ni {
            assert(cord_index(dims, r2[river.len() as int].0) == i);
        } else {
            let k = choose|k: int| 0 <= k < river.len() && cord_index(dims, river[k].0) == i;
            assert(r2[k] == river[k]);
        }
    }
    assert forall|k: int| 0 <= k < river.len() + 1 implies seen2.contains(cord_index(dims, (#[trigger] r2[k]).0)) by {
        if k < river.len() {
            assert(r2[k] == river[k]);
        }
    }
    assert forall|k: int| 0 <= k < r2.len() implies cord_in_bounds(dims, (#[trigger] r2[k]).0) by {
        if k < river.len() {
            assert(r2[k] == river[k]);
        }
    }
    vstd::set_lib::lemma_int_range(0, total(dims));
    vstd::set_lib::lemma_len_subset(seen2, vstd::set_lib::set_int_range(0, total(dims)));
    seen2
}

/// Adding a river keeps the map, flow directions and lake data in agreement.
proof fn lemma_add_river_keeps(
    original: Seq<TileType>,
    m1: Seq<TileType>,
    m2: Seq<TileType>,
    r1: Seq<Option<Direction>>,
    r2: Seq<Option<Direction>>,
    lake_data: Seq<Option<LakeSpriteData>>,
    dims: MapDimensions,
)
    requires
        grid_wf(m1, dims),
        only_rivers_added(original, m1),
        rivers_consistent(m1, r1),
        new_rivers_recorded(original, m1, r1),
        lakes_have_data(m1, lake_data),
        only_rivers_added(m1, m2),
        r2.len() == r1.len(),
        forall|i: int|
            0 <= i < m2.len() ==> (#[trigger] r2[i] == r1[i] && m2[i] == m1[i]) || (m2[i] == TileType::River
                && r2[i] is Some),
    ensures
        grid_wf(m2, dims),
        only_rivers_added(original, m2),
        rivers_consistent(m2, r2),
        new_rivers_recorded(original, m2, r2),
        lakes_have_data(m2, lake_data),
{
    assert forall|i: int| 0 <= i < m2.len() implies #[trigger] m2[i] == original[i] || m2[i] == TileType::River by {
        assert(r2[i] == r1[i] || m2[i] == TileType::River);
    }
    assert forall|i: int| 0 <= i < r2.len() && (#[trigger] r2[i]) is Some implies m2[i] == TileType::River by {
        assert(r2[i] == r1[i] || m2[i] == TileType::River);
    }
    assert forall|i: int|
        0 <= i < m2.len() && #[trigger] m2[i] == TileType::River && original[i] != TileType::River implies r2[i] is Some by {
        assert(r2[i] == r1[i] || m2[i] == TileType::River);
    }
    assert forall|i: int| 0 <= i < m2.len() && #[trigger] m2[i] == TileType::Lake implies lake_data[i] is Some by {
        assert(m2[i] == m1[i] || m2[i] == TileType::River);
    }
}

/// The tile at `c` when `c` is on the map.
pub open spec fn tile_opt(m: Seq<TileType>, dims: MapDimensions, c: MapCord) -> Option<TileType> {
    if cord_in_bounds(dims, c) {
        Some(m[cord_index(dims, c)])
    } else {
        None
    }
}

/// The river in progress already holds the coordinate `c`.
pub open spec fn in_river(river: Seq<(MapCord, Direction)>, c: MapCord) -> bool {
    exists|k: int| 0 <= k < river.len() && (#[trigger] river[k]).0 == c
}

/// What `lake_sides` gives for the tile `c`.
pub open spec fn lake_sides_value(m: Seq<TileType>, dims: MapDimensions, c: MapCord) -> int {
    if first_side_off_map(dims, c.x as int, c.y as int) < 4 {
        4
    } else {
        lake_sides_below(m, dims, c.x as int, c.y as int, 4)
    }
}

/// What `river_sides` gives for the tile `c`.
pub open spec fn river_sides_value(m: Seq<TileType>, dims: MapDimensions, c: MapCord) -> int {
    river_sides_below(m, dims, c.x as int, c.y as int, first_side_off_map(dims, c.x as int, c.y as int))
}

/// The direction a quarter turn left (anticlockwise) of `d`.
pub open spec fn left_of(d: Direction) -> Direction {
    crate::utils::directional_deltas::dir_from_num(dir_num(d) - 1)
}

/// The direction a quarter turn right (clockwise) of `d`.
pub open spec fn right_of(d: Direction) -> Direction {
    crate::utils::directional_deltas::dir_from_num(dir_num(d) + 1)
}

/// The direction a river walk steps in next and whether it just turned,
/// reading the turn draws at `at`, with where the draws end: right after a
/// turn it goes straight on without a draw; otherwise it turns with chance 1
/// in 100, to the left or the right with chance 1 in 2 each.
pub open spec fn turn_spec(dir: Direction, just_turned: bool, ds: Seq<Draw>, at: int) -> Option<(Direction, bool, int)> {
    if just_turned {
        Some((dir, false, at))
    } else {
        match flip_at(ds, at, 1, 100) {
            None => None,
            Some(turn) => if !turn {
                Some((dir, false, at + 1))
            } else {
                match flip_at(ds, at + 1, 1, 2) {
                    None => None,
                    Some(left) => Some((if left { left_of(dir) } else { right_of(dir) }, true, at + 2)),
                }
            },
        }
    }
}

/// What one step of a river walk in direction `dir` does.
pub enum RiverMove {
    /// The walk ends and the river is dropped.
    Drop,
    /// The walk ends and these tiles are added as river.
    Keep(Seq<(MapCord, Direction)>),
    /// The walk goes on to this tile.
    Continue(MapCord),
}

/// One step of a river walk from the last tile of `river` in direction
/// `dir`, on the map `m`: the river is dropped when the next tile is already
/// in it; kept when the next tile is off the map, or a river tile with no
/// river beyond it; dropped when it would cross a river; at a lake tile it is
/// kept, with that tile, when the tile has a single shore side and the
/// current tile has fewer than three lake sides, and dropped otherwise; on
/// other ground it is kept when river lies beside the current tile on one
/// side with river or the map's edge on the other, dropped when the next
/// tile has river on all four sides, and otherwise goes on.
pub open spec fn walk_move(
    lake_data: Seq<Option<LakeSpriteData>>,
    dims: MapDimensions,
    m: Seq<TileType>,
    river: Seq<(MapCord, Direction)>,
    dir: Direction,
) -> RiverMove {
    let tile = river.last().0;
    let check = step_spec(tile, dir_num(dir));
    if in_river(river, check) {
        RiverMove::Drop
    } else {
        match tile_opt(m, dims, check) {
            None => RiverMove::Keep(river),
            Some(t) => if t == TileType::River {
                if tile_opt(m, dims, step_spec(check, dir_num(dir))) == Some(TileType::River) {
                    RiverMove::Drop
                } else {
                    RiverMove::Keep(river)
                }
            } else if t == TileType::Lake {
                match lake_data[cord_index(dims, check)] {
                    None => RiverMove::Drop,
                    Some(ld) => {
                        let sh = ld.shore_animation_index;
                        if (sh == 1 || sh == 2 || sh == 4 || sh == 8) && lake_sides_value(m, dims, tile) < 3 {
                            RiverMove::Keep(river.push((check, dir)))
                        } else {
                            RiverMove::Drop
                        }
                    },
                }
            } else {
                let lt = tile_opt(m, dims, step_spec(tile, dir_num(left_of(dir))));
                let rt = tile_opt(m, dims, step_spec(tile, dir_num(right_of(dir))));
                let meets = (lt is None && rt == Some(TileType::River)) || (lt == Some(TileType::River) && rt is None)
                    || (lt == Some(TileType::River) && rt == Some(TileType::River));
                if meets {
                    RiverMove::Keep(river)
                } else if river_sides_value(m, dims, check) == 4 {
                    RiverMove::Drop
                } else {
                    RiverMove::Continue(check)
                }
            },
        }
    }
}

/// A river walk from the river in progress `river`, reading draws from
/// `at`, for at most `fuel` more tiles: the map and flow directions after it,
/// where the draws end, and whether every draw answered the question asked
/// there.
pub open spec fn walk_spec(
    lake_data: Seq<Option<LakeSpriteData>>,
    dims: MapDimensions,
    m: Seq<TileType>,
    r: Seq<Option<Direction>>,
    river: Seq<(MapCord, Direction)>,
    dir: Direction,
    just_turned: bool,
    ds: Seq<Draw>,
    at: int,
    fuel: nat,
) -> (Seq<TileType>, Seq<Option<Direction>>, int, bool)
    decreases fuel,
{
    if fuel == 0 || river.len() == 0 {
        (m, r, at, false)
    } else {
        match turn_spec(dir, just_turned, ds, at) {
            None => (m, r, at, false),
            Some((d2, jt2, at2)) => match walk_move(lake_data, dims, m, river, d2) {
                RiverMove::Drop => (m, r, at2, true),
                RiverMove::Keep(rv) => (add_river_spec(m, r, dims, rv).0, add_river_spec(m, r, dims, rv).1, at2, true),
                RiverMove::Continue(c) => walk_spec(
                    lake_data,
                    dims,
                    m,
                    r,
                    river.push((c, d2)),
                    d2,
                    jt2,
                    ds,
                    at2,
                    (fuel - 1) as nat,
                ),
            },
        }
    }
}

/// The direction a river leaves a lake tile whose only shore side has the
/// mask `sh`.
pub open spec fn shore_direction(sh: u8) -> Direction {
    if sh == 1 {
        Direction::North
    } else if sh == 2 {
        Direction::East
    } else if sh == 4 {
        Direction::South
    } else {
        Direction::West
    }
}

/// The rivers grown from the tiles at `(x, y)` on, in row-major order,
/// reading draws from `at`: each lake tile with a single shore side starts a
/// river with chance 52 in 1000, which walks out through that side.
pub open spec fn rivers_spec(
    lake_data: Seq<Option<LakeSpriteData>>,
    dims: MapDimensions,
    m: Seq<TileType>,
    r: Seq<Option<Direction>>,
    x: int,
    y: int,
    ds: Seq<Draw>,
    at: int,
) -> (Seq<TileType>, Seq<Option<Direction>>, int, bool)
    decreases crate::map::tile_map::as_i16(dims.height) - y, crate::map::tile_map::as_i16(dims.width) - x,
{
    if y >= crate::map::tile_map::as_i16(dims.height) || x < 0 {
        (m, r, at, true)
    } else if x >= crate::map::tile_map::as_i16(dims.width) {
        rivers_spec(lake_data, dims, m, r, 0, y + 1, ds, at)
    } else {
        match lake_data[tile_index(dims, x, y)] {
            Some(ld) => {
                let sh = ld.shore_animation_index;
                if sh == 1 || sh == 2 || sh == 4 || sh == 8 {
                    match flip_at(ds, at, 52, 1000) {
                        None => (m, r, at, false),
                        Some(go) => if !go {
                            rivers_spec(lake_data, dims, m, r, x + 1, y, ds, at + 1)
                        } else {
                            let d = shore_direction(sh);
                            let w = walk_spec(
                                lake_data,
                                dims,
                                m,
                                r,
                                seq![(MapCord { x: x as i16, y: y as i16 }, d)],
                                d,
                                false,
                                ds,
                                at + 1,
                                (total(dims) + 1) as nat,
                            );
                            if !w.3 {
                                w
                            } else {
                                rivers_spec(lake_data, dims, w.0, w.1, x + 1, y, ds, w.2)
                            }
                        },
                    }
                } else {
                    rivers_spec(lake_data, dims, m, r, x + 1, y, ds, at)
                }
            },
            None => rivers_spec(lake_data, dims, m, r, x + 1, y, ds, at),
        }
    }
}

/// The river tile at `(x, y)` with flow direction `d` is fed from behind:
/// the tile one step against `d` is a river tile, or `(x, y)` is a lake tile
/// whose only shore side is `d` (where a river leaves its lake).
pub open spec fn flows_in(
    map: Seq<TileType>,
    lake_data: Seq<Option<LakeSpriteData>>,
    dims: MapDimensions,
    x: int,
    y: int,
    d: Direction,
) -> bool {
    let (dx, dy) = cardinal_step(dir_num(d));
    ||| is_tile(map, dims, x - dx, y - dy, TileType::River)
    ||| (lake_data[tile_index(dims, x, y)] matches Some(ld) && ld.shore_animation_index as int == bit_if(
        true,
        dir_num(d),
    ))
}

/// Every tile with a flow direction is fed from behind (see `flows_in`).
pub open spec fn rivers_flow(
    map: Seq<TileType>,
    rivers: Seq<Option<Direction>>,
    lake_data: Seq<Option<LakeSpriteData>>,
    dims: MapDimensions,
) -> bool {
    forall|x: int, y: int|
        in_bounds(dims, x, y) && (#[trigger] rivers[tile_index(dims, x, y)]) is Some ==> flows_in(
            map,
            lake_data,
            dims,
            x,
            y,
            rivers[tile_index(dims, x, y)].unwrap(),
        )
}

/// Each entry of a river in progress after the first lies one step, in its
/// own direction, beyond the entry before it; no coordinate occurs twice; and
/// the first entry is a lake tile whose only shore side is its direction.
pub open spec fn river_chain(
    lake_data: Seq<Option<LakeSpriteData>>,
    dims: MapDimensions,
    river: Seq<(MapCord, Direction)>,
) -> bool {
    &&& forall|k: int|
        1 <= k < river.len() ==> {
            let (dx, dy) = cardinal_step(dir_num((#[trigger] river[k]).1));
            river[k - 1].0.x == river[k].0.x - dx && river[k - 1].0.y == river[k].0.y - dy
        }
    &&& forall|j: int, k: int| 0 <= j < k < river.len() ==> (#[trigger] river[j]).0 != (#[trigger] river[k]).0
    &&& river.len() > 0 ==> (lake_data[cord_index(dims, river[0].0)] matches Some(ld)
        && ld.shore_animation_index as int == bit_if(true, dir_num(river[0].1)))
}

/// Adding a chained river keeps every flow direction fed from behind.
proof fn lemma_add_river_flow(
    m0: Seq<TileType>,
    m1: Seq<TileType>,
    r0: Seq<Option<Direction>>,
    r1: Seq<Option<Direction>>,
    lake_data: Seq<Option<LakeSpriteData>>,
    dims: MapDimensions,
    river: Seq<(MapCord, Direction)>,
)
    requires
        grid_wf(m0, dims),
        r0.len() == m0.len(),
        r1.len() == r0.len(),
        river_on_map(dims, river),
        river_chain(lake_data, dims, river),
        rivers_flow(m0, r0, lake_data, dims),
        only_rivers_added(m0, m1),
        forall|k: int| 0 <= k < river.len() ==> m1[cord_index(dims, (#[trigger] river[k]).0)] == TileType::River,
        forall|k: int|
            0 <= k < river.len() && last_on_cord(river, k) ==> r1[cord_index(dims, (#[trigger] river[k]).0)] == Some(
                river[k].1,
            ),
        forall|i: int|
            0 <= i < m1.len() && off_river(dims, river, i) ==> #[trigger] m1[i] == m0[i] && r1[i] == r0[i],
    ensures
        rivers_flow(m1, r1, lake_data, dims),
{
    assert forall|x: int, y: int|
        in_bounds(dims, x, y) && (#[trigger] r1[tile_index(dims, x, y)]) is Some implies flows_in(
        m1,
        lake_data,
        dims,
        x,
        y,
        r1[tile_index(dims, x, y)].unwrap(),
    ) by {
        let i = tile_index(dims, x, y);
        lemma_index_in_grid(dims, x, y);
        if off_river(dims, river, i) {
            assert(m1[i] == m0[i] && r1[i] == r0[i]);
            let d = r0[i].unwrap();
            assert(flows_in(m0, lake_data, dims, x, y, d));
            let (dx, dy) = cardinal_step(dir_num(d));
            if is_tile(m0, dims, x - dx, y - dy, TileType::River) {
                lemma_index_in_grid(dims, x - dx, y - dy);
                let b = tile_index(dims, x - dx, y - dy);
                assert(m1[b] == m0[b] || m1[b] == TileType::River);
            }
        } else {
            let k = choose|k: int| 0 <= k < river.len() && cord_index(dims, (#[trigger] river[k]).0) == i;
            let c = river[k].0;
            assert(cord_in_bounds(dims, c));
            lemma_index_injective(dims, c.x as int, c.y as int, x, y);
            assert forall|j: int| k < j < river.len() implies (#[trigger] river[j]).0 != river[k].0 by {
                assert(river[k].0 != river[j].0);
            }
            assert(last_on_cord(river, k));
            assert(r1[i] == Some(river[k].1));
            if k > 0 {
                let p = river[k - 1].0;
                assert(river[k - 1].0.x == river[k].0.x - cardinal_step(dir_num(river[k].1)).0);
                assert(cord_in_bounds(dims, river[k - 1].0));
                assert(m1[cord_index(dims, river[k - 1].0)] == TileType::River);
            }
        }
    }
}

/// Walks one river from the single-shore lake tile `start` (flowing away
/// from the lake through its shore side) and, when the walk ends in an
/// acceptable way, adds it to the map.
/// A list that begins with `mid`, which begins with `p`, begins with `p`.
pub proof fn lemma_starts_with_trans(ds: Seq<Draw>, mid: Seq<Draw>, p: Seq<Draw>)
    requires
        starts_with(ds, mid),
        starts_with(mid, p),
    ensures
        starts_with(ds, p),
{
    assert forall|k: int| 0 <= k < p.len() implies ds[k] == p[k] by {
        assert(ds[k] == mid[k]);
    }
}

/// A list that begins with `p` still does once the first `k` draws are
/// dropped from both.
pub proof fn lemma_starts_with_skip(ds: Seq<Draw>, p: Seq<Draw>, k: int)
    requires
        starts_with(ds, p),
        0 <= k <= p.len(),
    ensures
        starts_with(ds.skip(k), p.skip(k)),
{
    assert forall|i: int| 0 <= i < p.skip(k).len() implies ds.skip(k)[i] == p.skip(k)[i] by {
        assert(ds[i + k] == p[i + k]);
    }
}

/// Every list begins with itself, and a list with draws added at its end
/// begins with the list.
pub proof fn lemma_starts_with_push(p: Seq<Draw>, e: Draw)
    ensures
        starts_with(p, p),
        starts_with(p.push(e), p),
{
    assert forall|k: int| 0 <= k < p.len() implies p.push(e)[k] == p[k] by {}
}

/// The turn part of a river walk step: right after a turn the walk goes
/// straight on without a draw; otherwise it turns with chance 1 in 100, to
/// the left or the right with chance 1 in 2 each.
fn take_turn<D: DrawSource>(draws: &mut D, dir: Direction, just_turned: bool) -> (r: (Direction, bool))
    ensures
        starts_with(final(draws).drawn(), old(draws).drawn()),
        forall|ds: Seq<Draw>|
            #[trigger] starts_with(ds, final(draws).drawn()) ==> turn_spec(dir, just_turned, ds, old(draws).drawn().len() as int)
                == Some((r.0, r.1, final(draws).drawn().len() as int)),
{
    let ghost d0 = draws.drawn();
    proof {
        lemma_starts_with_push(d0, Draw::Flip { numerator: 1, denominator: 100, outcome: true });
    }
    if just_turned {
        return (dir, false);
    }
    let turn = draws.chance(1, 100);
    let ghost d1 = draws.drawn();
    proof {
        lemma_starts_with_push(d0, Draw::Flip { numerator: 1, denominator: 100, outcome: turn });
    }
    if !turn {
        proof {
            assert forall|ds: Seq<Draw>| #[trigger] starts_with(ds, draws.drawn()) implies turn_spec(dir, just_turned, ds, d0.len() as int)
                == Some((dir, false, d1.len() as int)) by {
                assert(ds[d0.len() as int] == d1[d0.len() as int]);
            }
        }
        return (dir, false);
    }
    let left = draws.chance(1, 2);
    proof {
        lemma_starts_with_push(d1, Draw::Flip { numerator: 1, denominator: 2, outcome: left });
        lemma_starts_with_trans(draws.drawn(), d1, d0);
    }
    let new_dir = if left {
        dir.turn_left()
    } else {
        dir.turn_right()
    };
    proof {
        assert forall|ds: Seq<Draw>| #[trigger] starts_with(ds, draws.drawn()) implies turn_spec(dir, just_turned, ds, d0.len() as int)
            == Some((new_dir, true, draws.drawn().len() as int)) by {
            assert(ds[d0.len() as int] == draws.drawn()[d0.len() as int]);
            assert(ds[d0.len() as int + 1] == draws.drawn()[d0.len() as int + 1]);
        }
    }
    (new_dir, true)
}

/// The rest of a river walk once its turn draws are read: what the step
/// in direction `d2` does, with `fuel` more tiles left after it.
pub open spec fn after_turn(
    lake_data: Seq<Option<LakeSpriteData>>,
    dims: MapDimensions,
    m: Seq<TileType>,
    r: Seq<Option<Direction>>,
    river: Seq<(MapCord, Direction)>,
    d2: Direction,
    jt2: bool,
    ds: Seq<Draw>,
    at2: int,
    fuel: nat,
) -> (Seq<TileType>, Seq<Option<Direction>>, int, bool) {
    match walk_move(lake_data, dims, m, river, d2) {
        RiverMove::Drop => (m, r, at2, true),
        RiverMove::Keep(rv) => (add_river_spec(m, r, dims, rv).0, add_river_spec(m, r, dims, rv).1, at2, true),
        RiverMove::Continue(c) => walk_spec(lake_data, dims, m, r, river.push((c, d2)), d2, jt2, ds, at2, fuel),
    }
}

/// A walk step after its turn draws.
proof fn lemma_walk_unfold(
    lake_data: Seq<Option<LakeSpriteData>>,
    dims: MapDimensions,
    m: Seq<TileType>,
    r: Seq<Option<Direction>>,
    river: Seq<(MapCord, Direction)>,
    dir: Direction,
    jt: bool,
    ds: Seq<Draw>,
    at: int,
    fuel: nat,
    d2: Direction,
    jt2: bool,
    at2: int,
)
    requires
        fuel > 0,
        river.len() > 0,
        turn_spec(dir, jt, ds, at) == Some((d2, jt2, at2)),
    ensures
        walk_spec(lake_data, dims, m, r, river, dir, jt, ds, at, fuel) == after_turn(
            lake_data,
            dims,
            m,
            r,
            river,
            d2,
            jt2,
            ds,
            at2,
            (fuel - 1) as nat,
        ),
{
}

/// Walks one river from the single-shore lake tile `start` (flowing away
/// from the lake through its shore side) and, when the walk ends in an
/// acceptable way, adds it to the map; the outcome is `walk_spec` of the
/// draws made.
#[verifier::rlimit(100)]
fn walk_river<D: DrawSource>(
    map: &mut MapTileGrid,
    all_rivers: &mut RiverGrid,
    lake_data: &LakeSpriteGrid,
    dims: MapDimensions,
    start: MapCord,
    start_direction: Direction,
    draws: &mut D,
    Ghost(original): Ghost<Seq<TileType>>,
)
    requires
        cord_in_bounds(dims, start),
        grid_wf(old(map)@, dims),
        only_rivers_added(original, old(map)@),
        rivers_consistent(old(map)@, old(all_rivers)@),
        new_rivers_recorded(original, old(map)@, old(all_rivers)@),
        lakes_have_data(old(map)@, lake_data@),
        lake_data@[cord_index(dims, start)] matches Some(ld) && ld.shore_animation_index as int == bit_if(
            true,
            dir_num(start_direction),
        ),
        rivers_flow(old(map)@, old(all_rivers)@, lake_data@, dims),
    ensures
        grid_wf(final(map)@, dims),
        only_rivers_added(original, final(map)@),
        only_rivers_added(old(map)@, final(map)@),
        rivers_consistent(final(map)@, final(all_rivers)@),
        new_rivers_recorded(original, final(map)@, final(all_rivers)@),
        lakes_have_data(final(map)@, lake_data@),
        rivers_flow(final(map)@, final(all_rivers)@, lake_data@, dims),
        final(draws).drawn().len() >= old(draws).drawn().len(),
        final(draws).drawn().take(old(draws).drawn().len() as int) == old(draws).drawn(),
        forall|ds: Seq<Draw>|
            #[trigger] starts_with(ds, final(draws).drawn()) ==> walk_spec(
                lake_data@,
                dims,
                old(map)@,
                old(all_rivers)@,
                seq![(start, start_direction)],
                start_direction,
                false,
                ds,
                old(draws).drawn().len() as int,
                (total(dims) + 1) as nat,
            ) == (final(map)@, final(all_rivers)@, final(draws).drawn().len() as int, true),
{
    let ghost entry_map = map@;
    let ghost m0 = map@;
    let ghost r0 = all_rivers@;
    let ghost d0 = draws.drawn();
    let ghost base = d0.len() as int;
    let ghost f0 = (total(dims) + 1) as nat;
    let mut direction = start_direction;
    let mut current_tile = start;
    let mut just_turned = false;
    let mut current_river: Vec<(MapCord, Direction)> = Vec::new();
    current_river.push((current_tile, direction));
    let ghost mut seen: Set<int> = Set::empty().insert(cord_index(dims, start));
    proof {
        lemma_index_in_grid(dims, start.x as int, start.y as int);
        vstd::set_lib::lemma_int_range(0, total(dims));
        assert(current_river@[0].0 == start);
        assert(current_river@ =~= seq![(start, start_direction)]);
        lemma_starts_with_push(d0, Draw::Flip { numerator: 1, denominator: 100, outcome: true });
    }
    loop
        invariant_except_break
            current_river@.last().0 == current_tile,
            map@ == m0,
            all_rivers@ == r0,
            forall|ds: Seq<Draw>|
                #[trigger] starts_with(ds, draws.drawn()) ==> walk_spec(
                    lake_data@,
                    dims,
                    m0,
                    r0,
                    seq![(start, start_direction)],
                    start_direction,
                    false,
                    ds,
                    base,
                    f0,
                ) == walk_spec(
                    lake_data@,
                    dims,
                    m0,
                    r0,
                    current_river@,
                    direction,
                    just_turned,
                    ds,
                    draws.drawn().len() as int,
                    (f0 - (current_river@.len() - 1)) as nat,
                ),
        invariant
            walk_inv(original, map@, all_rivers@, lake_data@, dims, current_river@, seen),
            only_rivers_added(entry_map, map@),
            cord_in_bounds(dims, current_tile),
            rivers_flow(map@, all_rivers@, lake_data@, dims),
            river_chain(lake_data@, dims, current_river@),
            current_river@.len() > 0,
            starts_with(draws.drawn(), d0),
            base == d0.len(),
            f0 == (total(dims) + 1) as nat,
        ensures
            forall|ds: Seq<Draw>|
                #[trigger] starts_with(ds, draws.drawn()) ==> walk_spec(
                    lake_data@,
                    dims,
                    m0,
                    r0,
                    seq![(start, start_direction)],
                    start_direction,
                    false,
                    ds,
                    base,
                    f0,
                ) == (map@, all_rivers@, draws.drawn().len() as int, true),
        decreases total(dims) - current_river@.len(),
    {
        proof {
            vstd::set_lib::lemma_int_range(0, total(dims));
            vstd::set_lib::lemma_len_subset(seen, vstd::set_lib::set_int_range(0, total(dims)));
        }
        let ghost d_it = draws.drawn();
        let ghost river0 = current_river@;
        let ghost dir0 = direction;
        let ghost jt0 = just_turned;
        let ghost fuel_it = (f0 - (current_river@.len() - 1)) as nat;
        let (new_dir, new_jt) = take_turn(draws, direction, just_turned);
        direction = new_dir;
        just_turned = new_jt;
        let ghost d_t = draws.drawn();
        proof {
            lemma_starts_with_trans(d_t, d_it, d0);
            assert forall|ds: Seq<Draw>| #[trigger] starts_with(ds, d_t) implies walk_spec(
                lake_data@,
                dims,
                m0,
                r0,
                seq![(start, start_direction)],
                start_direction,
                false,
                ds,
                base,
                f0,
            ) == after_turn(lake_data@, dims, m0, r0, river0, direction, just_turned, ds, d_t.len() as int, (fuel_it - 1) as nat) by {
                lemma_starts_with_trans(ds, d_t, d_it);
                assert(turn_spec(dir0, jt0, ds, d_it.len() as int) == Some((direction, just_turned, d_t.len() as int)));
                lemma_walk_unfold(lake_data@, dims, m0, r0, river0, dir0, jt0, ds, d_it.len() as int, fuel_it, direction, just_turned, d_t.len() as int);
            }
        }
        let dir_i = direction.repr() as usize;
        let check_tile = step(current_tile, dims, dir_i);
        if river_contains(&current_river, check_tile) {
            proof {
                assert(walk_move(lake_data@, dims, m0, river0, direction) == RiverMove::Drop);
            }
            break;
        }
        let ghost m1 = map@;
        let ghost r1 = all_rivers@;
        let check_tile_type = match tile_if_on_map(map, dims, check_tile) {
            None => {
                add_river(&current_river, all_rivers, map, dims);
                proof {
                    lemma_add_river_keeps(original, m1, map@, r1, all_rivers@, lake_data@, dims);
                    lemma_add_river_flow(m1, map@, r1, all_rivers@, lake_data@, dims, current_river@);
                    assert(walk_move(lake_data@, dims, m0, river0, direction) == RiverMove::Keep(river0));
                }
                break;
            },
            Some(t) => t,
        };
        if check_tile_type == TileType::River {
            let check_tile_two = step(check_tile, dims, dir_i);
            match tile_if_on_map(map, dims, check_tile_two) {
                None => {
                    add_river(&current_river, all_rivers, map, dims);
                    proof {
                        lemma_add_river_keeps(original, m1, map@, r1, all_rivers@, lake_data@, dims);
                        lemma_add_river_flow(m1, map@, r1, all_rivers@, lake_data@, dims, current_river@);
                        assert(walk_move(lake_data@, dims, m0, river0, direction) == RiverMove::Keep(river0));
                    }
                    break;
                },
                Some(TileType::River) => {
                    proof {
                        assert(walk_move(lake_data@, dims, m0, river0, direction) == RiverMove::Drop);
                    }
                    break;
                },
                Some(_) => {
                    add_river(&current_river, all_rivers, map, dims);
                    proof {
                        lemma_add_river_keeps(original, m1, map@, r1, all_rivers@, lake_data@, dims);
                        lemma_add_river_flow(m1, map@, r1, all_rivers@, lake_data@, dims, current_river@);
                        assert(walk_move(lake_data@, dims, m0, river0, direction) == RiverMove::Keep(river0));
                    }
                    break;
                },
            }
        } else if check_tile_type == TileType::Lake {
            proof {
                lemma_index_in_grid(dims, check_tile.x as int, check_tile.y as int);
            }
            let idx = cords_to_index(dims, check_tile);
            let lake_sh = match lake_data[idx] {
                Some(d) => d.shore_animation_index,
                None => {
                    proof {
                        assert(walk_move(lake_data@, dims, m0, river0, direction) == RiverMove::Drop);
                    }
                    break;
                },
            };
            if lake_sh == 1 || lake_sh == 2 || lake_sh == 4 || lake_sh == 8 {
                let counter = lake_sides(map, dims, current_tile);
                if counter >= 3 {
                    proof {
                        assert(walk_move(lake_data@, dims, m0, river0, direction) == RiverMove::Drop);
                    }
                    break;
                }
                proof {
                    seen = lemma_push_new_cord(dims, current_river@, seen, check_tile, direction);
                }
                current_river.push((check_tile, direction));
                add_river(&current_river, all_rivers, map, dims);
                proof {
                    lemma_add_river_keeps(original, m1, map@, r1, all_rivers@, lake_data@, dims);
                    lemma_add_river_flow(m1, map@, r1, all_rivers@, lake_data@, dims, current_river@);
                    assert(walk_move(lake_data@, dims, m0, river0, direction) == RiverMove::Keep(
                        river0.push((check_tile, direction)),
                    ));
                }
                break;
            } else {
                proof {
                    assert(walk_move(lake_data@, dims, m0, river0, direction) == RiverMove::Drop);
                }
                break;
            }
        }
        let tile_to_left = step(current_tile, dims, direction.turn_left().repr() as usize);
        let tile_to_right = step(current_tile, dims, direction.turn_right().repr() as usize);
        let left_type = tile_if_on_map(map, dims, tile_to_left);
        let right_type = tile_if_on_map(map, dims, tile_to_right);
        let meets_river = match (left_type, right_type) {
            (None, Some(TileType::River)) | (Some(TileType::River), None) | (
                Some(TileType::River),
                Some(TileType::River),
            ) => true,
            _ => false,
        };
        if meets_river {
            add_river(&current_river, all_rivers, map, dims);
            proof {
                lemma_add_river_keeps(original, m1, map@, r1, all_rivers@, lake_data@, dims);
                lemma_add_river_flow(m1, map@, r1, all_rivers@, lake_data@, dims, current_river@);
                assert(walk_move(lake_data@, dims, m0, river0, direction) == RiverMove::Keep(river0));
            }
            break;
        }
        let counter = river_sides(map, dims, check_tile);
        if counter == 4 {
            proof {
                assert(walk_move(lake_data@, dims, m0, river0, direction) == RiverMove::Drop);
            }
            break;
        }
        proof {
            seen = lemma_push_new_cord(dims, current_river@, seen, check_tile, direction);
            assert(walk_move(lake_data@, dims, m0, river0, direction) == RiverMove::Continue(check_tile));
        }
        current_river.push((check_tile, direction));
        current_tile = check_tile;
    }
    proof {
        let dfin = draws.drawn();
        assert(dfin.take(base) =~= d0) by {
            assert forall|k: int| 0 <= k < base implies dfin.take(base)[k] == d0[k] by {
                assert(dfin[k] == d0[k]);
            }
        }
    }
}


/// Grows rivers out of lakes. Each lake tile with exactly one shore side
/// starts a river with chance 52 in 1000; the river flows out through that
/// side and walks on, turning left or right now and then (1 in 100, never
/// twice in a row). A river is kept when it reaches the map's edge, meets
/// another river, or flows into another lake through a single-shore tile; it
/// is dropped when it would loop onto itself, cross a river, enter a lake
/// elsewhere, or surround a tile with river on all four sides.
///
/// Only river tiles are added to the map, and every added river tile gets
/// its flow direction in the returned grid; a flow direction is recorded only
/// for river tiles. Rivers start only at tiles with lake overlay data, so
/// without any the map stays as it is and no flow direction is recorded.
/// Every recorded flow direction is the step by which its river entered the
/// tile: the tile one step back is river, or the tile is where the river
/// left its lake, a lake tile whose only shore side is that direction.
/// The outcome is what `rivers_spec` gives for some list of draws; for given
/// draws, `create_rivers_with` states it.
pub fn create_rivers(
    map: &mut MapTileGrid,
    lake_data: &LakeSpriteGrid,
    map_dimensions: MapDimensions,
    rng: &mut ThreadRng,
) -> (all_rivers: RiverGrid)
    requires
        grid_wf(old(map)@, map_dimensions),
        lakes_have_data(old(map)@, lake_data@),
    ensures
        grid_wf(final(map)@, map_dimensions),
        only_rivers_added(old(map)@, final(map)@),
        rivers_consistent(final(map)@, all_rivers@),
        new_rivers_recorded(old(map)@, final(map)@, all_rivers@),
        no_lake_data(lake_data@) ==> final(map)@ == old(map)@ && no_rivers(all_rivers@),
        rivers_flow(final(map)@, all_rivers@, lake_data@, map_dimensions),
        exists|ds: Seq<Draw>|
            #[trigger] rivers_spec(
                lake_data@,
                map_dimensions,
                old(map)@,
                no_flows(map_dimensions),
                0,
                0,
                ds,
                0,
            ) == (final(map)@, all_rivers@, ds.len() as int, true),
{
    let mut draws = RandomDraws::new(rng);
    create_rivers_with(map, lake_data, map_dimensions, &mut draws)
}

/// The rivers of `create_rivers`, with the draws taken from `draws`: the map
/// and flow directions come out as `rivers_spec` gives them for the draws
/// made.
pub fn create_rivers_with<D: DrawSource>(
    map: &mut MapTileGrid,
    lake_data: &LakeSpriteGrid,
    map_dimensions: MapDimensions,
    draws: &mut D,
) -> (all_rivers: RiverGrid)
    requires
        grid_wf(old(map)@, map_dimensions),
        lakes_have_data(old(map)@, lake_data@),
    ensures
        grid_wf(final(map)@, map_dimensions),
        only_rivers_added(old(map)@, final(map)@),
        rivers_consistent(final(map)@, all_rivers@),
        new_rivers_recorded(old(map)@, final(map)@, all_rivers@),
        no_lake_data(lake_data@) ==> final(map)@ == old(map)@ && no_rivers(all_rivers@),
        rivers_flow(final(map)@, all_rivers@, lake_data@, map_dimensions),
        final(draws).drawn().len() >= old(draws).drawn().len(),
        final(draws).drawn().take(old(draws).drawn().len() as int) == old(draws).drawn(),
        rivers_spec(
            lake_data@,
            map_dimensions,
            old(map)@,
            no_flows(map_dimensions),
            0,
            0,
            final(draws).drawn(),
            old(draws).drawn().len() as int,
        ) == (final(map)@, all_rivers@, final(draws).drawn().len() as int, true),
        forall|ds: Seq<Draw>|
            #[trigger] starts_with(ds, final(draws).drawn()) ==> rivers_spec(
                lake_data@,
                map_dimensions,
                old(map)@,
                no_flows(map_dimensions),
                0,
                0,
                ds,
                old(draws).drawn().len() as int,
            ) == (final(map)@, all_rivers@, final(draws).drawn().len() as int, true),
{
    let dims = map_dimensions;
    let ghost original = map@;
    let total_tiles = dims.total_tiles();
    let mut all_rivers: RiverGrid = vec![None; total_tiles];
    let ghost r_init = all_rivers@;
    let ghost d0 = draws.drawn();
    let ghost base = d0.len() as int;
    proof {
        assert(r_init =~= no_flows(dims));
        lemma_starts_with_push(d0, Draw::Flip { numerator: 1, denominator: 100, outcome: true });
        lemma_as_i16(dims.width);
        lemma_as_i16(dims.height);
        assert forall|x: int, y: int| in_bounds(dims, x, y) implies !(#[trigger] all_rivers@[tile_index(dims, x, y)] is Some) by {
            lemma_index_in_grid(dims, x, y);
        }
    }
    let h16 = dims.height as i16;
    let w16 = dims.width as i16;
    let mut y: i16 = 0;
    while y < h16
        invariant
            h16 as int == crate::map::tile_map::as_i16(dims.height),
            w16 as int == crate::map::tile_map::as_i16(dims.width),
            0 <= y,
            grid_wf(map@, dims),
            only_rivers_added(original, map@),
            rivers_consistent(map@, all_rivers@),
            new_rivers_recorded(original, map@, all_rivers@),
            lakes_have_data(map@, lake_data@),
            no_lake_data(lake_data@) ==> map@ == original && no_rivers(all_rivers@),
            rivers_flow(map@, all_rivers@, lake_data@, dims),
            starts_with(draws.drawn(), d0),
            base == d0.len(),
            forall|ds: Seq<Draw>|
                #[trigger] starts_with(ds, draws.drawn()) ==> rivers_spec(lake_data@, dims, original, r_init, 0, 0, ds, base)
                    == rivers_spec(lake_data@, dims, map@, all_rivers@, 0, y as int, ds, draws.drawn().len() as int),
        decreases h16 - y,
    {
        let mut x: i16 = 0;
        while x < w16
            invariant
                h16 as int == crate::map::tile_map::as_i16(dims.height),
                w16 as int == crate::map::tile_map::as_i16(dims.width),
                0 <= y < h16,
                0 <= x,
                grid_wf(map@, dims),
                only_rivers_added(original, map@),
                rivers_consistent(map@, all_rivers@),
                new_rivers_recorded(original, map@, all_rivers@),
                lakes_have_data(map@, lake_data@),
                no_lake_data(lake_data@) ==> map@ == original && no_rivers(all_rivers@),
                rivers_flow(map@, all_rivers@, lake_data@, dims),
                starts_with(draws.drawn(), d0),
                base == d0.len(),
                forall|ds: Seq<Draw>|
                    #[trigger] starts_with(ds, draws.drawn()) ==> rivers_spec(lake_data@, dims, original, r_init, 0, 0, ds, base)
                        == rivers_spec(lake_data@, dims, map@, all_rivers@, x as int, y as int, ds, draws.drawn().len() as int),
            decreases w16 - x,
        {
            let cord = MapCord::new(x, y);
            proof {
                lemma_index_in_grid(dims, x as int, y as int);
            }
            let idx = cords_to_index(dims, cord);
            let ghost m_x = map@;
            let ghost r_x = all_rivers@;
            let ghost d_x = draws.drawn();
            if let Some(data) = lake_data[idx] {
                let sh = data.shore_animation_index;
                if sh == 1 || sh == 2 || sh == 4 || sh == 8 {
                    let go = draws.chance(52, 1000);
                    let ghost d_g = draws.drawn();
                    proof {
                        lemma_starts_with_push(d_x, Draw::Flip { numerator: 52, denominator: 1000, outcome: go });
                        lemma_starts_with_trans(d_g, d_x, d0);
                        assert forall|ds: Seq<Draw>| #[trigger] starts_with(ds, d_g) implies rivers_spec(lake_data@, dims, original, r_init, 0, 0, ds, base)
                            == (if !go {
                            rivers_spec(lake_data@, dims, m_x, r_x, x + 1, y as int, ds, d_g.len() as int)
                        } else {
                            let w = walk_spec(
                                lake_data@,
                                dims,
                                m_x,
                                r_x,
                                seq![(MapCord { x: x as i16, y: y as i16 }, shore_direction(sh))],
                                shore_direction(sh),
                                false,
                                ds,
                                d_g.len() as int,
                                (total(dims) + 1) as nat,
                            );
                            if !w.3 {
                                w
                            } else {
                                rivers_spec(lake_data@, dims, w.0, w.1, x + 1, y as int, ds, w.2)
                            }
                        }) by {
                            lemma_starts_with_trans(ds, d_g, d_x);
                            assert(ds[d_x.len() as int] == d_g[d_x.len() as int]);
                        }
                    }
                    if go {
                        let direction = if sh == 1 {
                            Direction::North
                        } else if sh == 2 {
                            Direction::East
                        } else if sh == 4 {
                            Direction::South
                        } else {
                            Direction::West
                        };
                        proof {
                            assert(direction == shore_direction(sh));
                            assert(cord == MapCord { x: x as i16, y: y as i16 });
                        }
                        walk_river(map, &mut all_rivers, lake_data, dims, cord, direction, draws, Ghost(original));
                        proof {
                            let d_w = draws.drawn();
                            assert(starts_with(d_w, d_g)) by {
                                assert forall|k: int| 0 <= k < d_g.len() implies d_w[k] == d_g[k] by {
                                    assert(d_w.take(d_g.len() as int)[k] == d_g[k]);
                                }
                            }
                            lemma_starts_with_trans(d_w, d_g, d0);
                            assert forall|ds: Seq<Draw>| #[trigger] starts_with(ds, d_w) implies rivers_spec(lake_data@, dims, original, r_init, 0, 0, ds, base)
                                == rivers_spec(lake_data@, dims, map@, all_rivers@, x + 1, y as int, ds, d_w.len() as int) by {
                                lemma_starts_with_trans(ds, d_w, d_g);
                            }
                        }
                    }
                } else {
                    proof {
                        assert forall|ds: Seq<Draw>| #[trigger] starts_with(ds, draws.drawn()) implies rivers_spec(lake_data@, dims, original, r_init, 0, 0, ds, base)
                            == rivers_spec(lake_data@, dims, map@, all_rivers@, x + 1, y as int, ds, draws.drawn().len() as int) by {
                        }
                    }
                }
            } else {
                proof {
                    assert forall|ds: Seq<Draw>| #[trigger] starts_with(ds, draws.drawn()) implies rivers_spec(lake_data@, dims, original, r_init, 0, 0, ds, base)
                        == rivers_spec(lake_data@, dims, map@, all_rivers@, x + 1, y as int, ds, draws.drawn().len() as int) by {
                    }
                }
            }
            x = x + 1;
        }
        proof {
            assert forall|ds: Seq<Draw>| #[trigger] starts_with(ds, draws.drawn()) implies rivers_spec(lake_data@, dims, original, r_init, 0, 0, ds, base)
                == rivers_spec(lake_data@, dims, map@, all_rivers@, 0, y + 1, ds, draws.drawn().len() as int) by {
            }
        }
        y = y + 1;
    }
    proof {
        let dfin = draws.drawn();
        lemma_starts_with_push(dfin, Draw::Flip { numerator: 1, denominator: 100, outcome: true });
        assert(dfin.take(base) =~= d0) by {
            assert forall|k: int| 0 <= k < base implies dfin.take(base)[k] == d0[k] by {
                assert(dfin[k] == d0[k]);
            }
        }
    }
    all_rivers
}


/// No tile has lake overlay data.
pub open spec fn no_lake_data(lake_data: Seq<Option<LakeSpriteData>>) -> bool {
    forall|i: int| 0 <= i < lake_data.len() ==> #[trigger] lake_data[i] is None
}

/// No tile has a flow direction.
pub open spec fn no_rivers(rivers: Seq<Option<Direction>>) -> bool {
    forall|i: int| 0 <= i < rivers.len() ==> #[trigger] rivers[i] is None
}

/// River sprite data, one entry per tile in row-major order; only river
/// tiles have an entry.
pub type RiverSpriteGrid = Vec<Option<RiverSpriteData>>;

/// Every river tile of the map has a flow direction.
pub open spec fn all_river_tiles_recorded(map: Seq<TileType>, rivers: Seq<Option<Direction>>) -> bool {
    forall|i: int| 0 <= i < map.len() && #[trigger] map[i] == TileType::River ==> rivers[i] is Some
}

/// Side `i` of the point `(x, y)` is a river tile on the map.
pub open spec fn river_side(map: Seq<TileType>, dims: MapDimensions, x: int, y: int, i: int) -> bool {
    let (dx, dy) = cardinal_step(i);
    is_tile(map, dims, x + dx, y + dy, TileType::River)
}

/// How many sides of the point `(x, y)` are river tiles.
pub open spec fn river_side_count(map: Seq<TileType>, dims: MapDimensions, x: int, y: int) -> int {
    (if river_side(map, dims, x, y, 0) { 1int } else { 0 }) + (if river_side(map, dims, x, y, 1) { 1int } else { 0 })
        + (if river_side(map, dims, x, y, 2) { 1int } else { 0 }) + (if river_side(map, dims, x, y, 3) { 1int } else { 0 })
}

/// The river on side `i` of `(x, y)` flows south.
pub open spec fn side_flows_south(
    rivers: Seq<Option<Direction>>,
    dims: MapDimensions,
    x: int,
    y: int,
    i: int,
) -> bool {
    let (dx, dy) = cardinal_step(i);
    rivers[tile_index(dims, x + dx, y + dy)] == Some(Direction::South)
}

/// The lowest-numbered river side of `(x, y)`.
pub open spec fn first_river_side(map: Seq<TileType>, dims: MapDimensions, x: int, y: int) -> int {
    if river_side(map, dims, x, y, 0) {
        0
    } else if river_side(map, dims, x, y, 1) {
        1
    } else if river_side(map, dims, x, y, 2) {
        2
    } else {
        3
    }
}

/// The highest-numbered river side of `(x, y)`.
pub open spec fn last_river_side(map: Seq<TileType>, dims: MapDimensions, x: int, y: int) -> int {
    if river_side(map, dims, x, y, 3) {
        3
    } else if river_side(map, dims, x, y, 2) {
        2
    } else if river_side(map, dims, x, y, 1) {
        1
    } else {
        0
    }
}

/// The lowest-numbered side of `(x, y)` that is not river.
pub open spec fn first_dry_side(map: Seq<TileType>, dims: MapDimensions, x: int, y: int) -> int {
    if !river_side(map, dims, x, y, 0) {
        0
    } else if !river_side(map, dims, x, y, 1) {
        1
    } else if !river_side(map, dims, x, y, 2) {
        2
    } else {
        3
    }
}

/// Sprite index of a corner piece joining sides `a < b` (not opposite);
/// `downstream` when the water flows south.
pub open spec fn corner_index(a: int, b: int, downstream: bool) -> int {
    if a == 1 && b == 2 {
        if downstream { 0 } else { 1 }
    } else if a == 2 && b == 3 {
        if downstream { 2 } else { 3 }
    } else if a == 0 && b == 3 {
        if downstream { 4 } else { 5 }
    } else {
        if downstream { 6 } else { 7 }
    }
}

/// Sprite index of a T piece whose dry side is `dry`; `downstream` when the
/// water flows south.
pub open spec fn t_section_index(dry: int, downstream: bool) -> int {
    if dry == 3 {
        if downstream { 0 } else { 2 }
    } else if dry == 1 {
        if downstream { 1 } else { 3 }
    } else if dry == 2 {
        if downstream { 4 } else { 5 }
    } else {
        if downstream { 6 } else { 7 }
    }
}

/// The piece of the river tile `(x, y)` flowing in direction `dir`:
/// - one river side: when the tile ahead is off the map, a straight piece;
///   when it is lake, an inlet facing back (`(dir + 2) % 4`); otherwise an
///   outlet facing `dir`;
/// - two river sides: straight (sprite `dir`) when they are opposite, else a
///   corner, flowing downstream when either neighbour flows south;
/// - three river sides: a T piece by its dry side, flowing downstream when
///   any of the three neighbours flows south.
pub open spec fn river_piece(
    map: Seq<TileType>,
    rivers: Seq<Option<Direction>>,
    dims: MapDimensions,
    x: int,
    y: int,
    dir: Direction,
) -> RiverSpriteData {
    let n = river_side_count(map, dims, x, y);
    let d = dir_num(dir);
    if n == 1 {
        let (dx, dy) = cardinal_step(d);
        if !in_bounds(dims, x + dx, y + dy) {
            RiverSpriteData { river_type: RiverType::Straight, river_sprite_index: d as u8 }
        } else if tile_at(map, dims, x + dx, y + dy) == TileType::Lake {
            RiverSpriteData { river_type: RiverType::Inlet, river_sprite_index: ((d + 2) % 4) as u8 }
        } else {
            RiverSpriteData { river_type: RiverType::Outlet, river_sprite_index: d as u8 }
        }
    } else if n == 2 {
        let a = first_river_side(map, dims, x, y);
        let b = last_river_side(map, dims, x, y);
        if b == a + 2 {
            RiverSpriteData { river_type: RiverType::Straight, river_sprite_index: d as u8 }
        } else {
            let down = side_flows_south(rivers, dims, x, y, a) || side_flows_south(rivers, dims, x, y, b);
            RiverSpriteData { river_type: RiverType::Corner, river_sprite_index: corner_index(a, b, down) as u8 }
        }
    } else {
        let dry = first_dry_side(map, dims, x, y);
        let down = exists|i: int| 0 <= i < 4 && i != dry && side_flows_south(rivers, dims, x, y, i);
        RiverSpriteData { river_type: RiverType::TSection, river_sprite_index: t_section_index(dry, down) as u8 }
    }
}

/// The sprite entry of the point `(x, y)`: its piece when it has a flow
/// direction, nothing otherwise.
pub open spec fn river_entry(
    map: Seq<TileType>,
    rivers: Seq<Option<Direction>>,
    dims: MapDimensions,
    x: int,
    y: int,
) -> Option<RiverSpriteData> {
    match rivers[tile_index(dims, x, y)] {
        Some(dir) => Some(river_piece(map, rivers, dims, x, y, dir)),
        None => None,
    }
}

/// Every on-map tile with a flow direction has one, two or three river
/// sides, so that it has a sprite.
pub open spec fn rivers_have_sprites(map: Seq<TileType>, rivers: Seq<Option<Direction>>, dims: MapDimensions) -> bool {
    forall|x: int, y: int|
        in_bounds(dims, x, y) && (#[trigger] rivers[tile_index(dims, x, y)]) is Some ==> 1 <= river_side_count(
            map,
            dims,
            x,
            y,
        ) <= 3
}

/// Whether each side of the on-map point `(x, y)` is river.
fn river_sides_of(map: &MapTileGrid, dims: MapDimensions, x: i16, y: i16) -> (s: [bool; 4])
    requires
        grid_wf(map@, dims),
        in_bounds(dims, x as int, y as int),
    ensures
        forall|i: int| 0 <= i < 4 ==> s[i] == river_side(map@, dims, x as int, y as int, i),
{
    let c = MapCord::new(x, y);
    let s0 = tile_if_on_map(map, dims, step(c, dims, 0)) == Some(TileType::River);
    let s1 = tile_if_on_map(map, dims, step(c, dims, 1)) == Some(TileType::River);
    let s2 = tile_if_on_map(map, dims, step(c, dims, 2)) == Some(TileType::River);
    let s3 = tile_if_on_map(map, dims, step(c, dims, 3)) == Some(TileType::River);
    let s = [s0, s1, s2, s3];
    assert forall|i: int| 0 <= i < 4 implies s[i] == river_side(map@, dims, x as int, y as int, i) by {
        if i == 0 {
        } else if i == 1 {
        } else if i == 2 {
        } else {
        }
    }
    s
}

/// Whether the river on side `i` of the on-map point `(x, y)` flows south.
fn flows_south(
    map: &MapTileGrid,
    rivers: &RiverGrid,
    dims: MapDimensions,
    x: i16,
    y: i16,
    i: usize,
) -> (b: bool)
    requires
        grid_wf(map@, dims),
        rivers@.len() == map@.len(),
        in_bounds(dims, x as int, y as int),
        i < 4,
        river_side(map@, dims, x as int, y as int, i as int),
    ensures
        b == side_flows_south(rivers@, dims, x as int, y as int, i as int),
{
    let n = step(MapCord::new(x, y), dims, i);
    proof {
        lemma_index_in_grid(dims, n.x as int, n.y as int);
    }
    let idx = cords_to_index(dims, n);
    match rivers[idx] {
        Some(Direction::South) => true,
        _ => false,
    }
}

/// The river piece of the on-map river tile `(x, y)` flowing in `dir`.
fn river_piece_at(
    map: &MapTileGrid,
    rivers: &RiverGrid,
    dims: MapDimensions,
    x: i16,
    y: i16,
    dir: Direction,
) -> (p: RiverSpriteData)
    requires
        grid_wf(map@, dims),
        rivers@.len() == map@.len(),
        in_bounds(dims, x as int, y as int),
        1 <= river_side_count(map@, dims, x as int, y as int) <= 3,
    ensures
        p == river_piece(map@, rivers@, dims, x as int, y as int, dir),
{
    let ghost gx = x as int;
    let ghost gy = y as int;
    let sides = river_sides_of(map, dims, x, y);
    let mut num_of_neighbors: u8 = 0;
    if sides[0] {
        num_of_neighbors = num_of_neighbors + 1;
    }
    if sides[1] {
        num_of_neighbors = num_of_neighbors + 1;
    }
    if sides[2] {
        num_of_neighbors = num_of_neighbors + 1;
    }
    if sides[3] {
        num_of_neighbors = num_of_neighbors + 1;
    }
    assert(num_of_neighbors == river_side_count(map@, dims, gx, gy));
    let d = dir.repr() as usize;
    if num_of_neighbors == 1 {
        let check_tile = step(MapCord::new(x, y), dims, d);
        match tile_if_on_map(map, dims, check_tile) {
            None => RiverSpriteData { river_type: RiverType::Straight, river_sprite_index: d as u8 },
            Some(TileType::Lake) => RiverSpriteData {
                river_type: RiverType::Inlet,
                river_sprite_index: ((d as u8) + 2) % 4,
            },
            Some(_) => RiverSpriteData { river_type: RiverType::Outlet, river_sprite_index: d as u8 },
        }
    } else if num_of_neighbors == 2 {
        let a: usize = if sides[0] {
            0
        } else if sides[1] {
            1
        } else if sides[2] {
            2
        } else {
            3
        };
        let b: usize = if sides[3] {
            3
        } else if sides[2] {
            2
        } else if sides[1] {
            1
        } else {
            0
        };
        assert(a as int == first_river_side(map@, dims, gx, gy));
        assert(b as int == last_river_side(map@, dims, gx, gy));
        if b == a + 2 {
            RiverSpriteData { river_type: RiverType::Straight, river_sprite_index: d as u8 }
        } else {
            let down = flows_south(map, rivers, dims, x, y, a) || flows_south(map, rivers, dims, x, y, b);
            let index: u8 = if a == 1 && b == 2 {
                if down { 0 } else { 1 }
            } else if a == 2 && b == 3 {
                if down { 2 } else { 3 }
            } else if a == 0 && b == 3 {
                if down { 4 } else { 5 }
            } else {
                if down { 6 } else { 7 }
            };
            RiverSpriteData { river_type: RiverType::Corner, river_sprite_index: index }
        }
    } else {
        let dry: usize = if !sides[0] {
            0
        } else if !sides[1] {
            1
        } else if !sides[2] {
            2
        } else {
            3
        };
        assert(dry as int == first_dry_side(map@, dims, gx, gy));
        let mut down = false;
        let mut i: usize = 0;
        while i < 4
            invariant
                grid_wf(map@, dims),
                rivers@.len() == map@.len(),
                in_bounds(dims, gx, gy),
                gx == x as int,
                gy == y as int,
                river_side_count(map@, dims, gx, gy) == 3,
                dry as int == first_dry_side(map@, dims, gx, gy),
                forall|j: int| 0 <= j < 4 ==> sides[j] == river_side(map@, dims, gx, gy, j),
                i <= 4,
                down == exists|j: int| 0 <= j < i && j != dry && side_flows_south(rivers@, dims, gx, gy, j),
            decreases 4 - i,
        {
            if i != dry {
                assert(sides[i as int]);
                if flows_south(map, rivers, dims, x, y, i) {
                    down = true;
                }
            }
            i = i + 1;
        }
        let index: u8 = if dry == 3 {
            if down { 0 } else { 2 }
        } else if dry == 1 {
            if down { 1 } else { 3 }
        } else if dry == 2 {
            if down { 4 } else { 5 }
        } else {
            if down { 6 } else { 7 }
        };
        RiverSpriteData { river_type: RiverType::TSection, river_sprite_index: index }
    }
}


/// Chooses the sprite of every river tile (see `river_piece`). Each tile with
/// a flow direction must have one, two or three river sides.
pub fn set_river_tile_animations(
    all_rivers: &RiverGrid,
    map: &MapTileGrid,
    map_dimensions: MapDimensions,
) -> (r: RiverSpriteGrid)
    requires
        grid_wf(map@, map_dimensions),
        all_rivers@.len() == map@.len(),
        rivers_have_sprites(map@, all_rivers@, map_dimensions),
    ensures
        r@.len() == total(map_dimensions),
        forall|x: int, y: int|
            in_bounds(map_dimensions, x, y) ==> #[trigger] r@[tile_index(map_dimensions, x, y)]
                == river_entry(map@, all_rivers@, map_dimensions, x, y),
        forall|i: int| 0 <= i < r@.len() && (#[trigger] r@[i]) is Some ==> all_rivers@[i] is Some,
{
    let dims = map_dimensions;
    let total_tiles = dims.total_tiles();
    let mut river_data: RiverSpriteGrid = vec![None; total_tiles];
    proof {
        lemma_as_i16(dims.width);
        lemma_as_i16(dims.height);
    }
    let h16 = dims.height as i16;
    let w16 = dims.width as i16;
    let mut y: i16 = 0;
    while y < h16
        invariant
            grid_wf(map@, dims),
            all_rivers@.len() == map@.len(),
            rivers_have_sprites(map@, all_rivers@, dims),
            h16 as int == crate::map::tile_map::as_i16(dims.height),
            w16 as int == crate::map::tile_map::as_i16(dims.width),
            0 <= y,
            river_data@.len() == total(dims),
            forall|xx: int, yy: int|
                in_bounds(dims, xx, yy) && yy < y ==> #[trigger] river_data@[tile_index(dims, xx, yy)]
                    == river_entry(map@, all_rivers@, dims, xx, yy),
            forall|i: int| 0 <= i < river_data@.len() && (#[trigger] river_data@[i]) is Some ==> all_rivers@[i] is Some,
        decreases h16 - y,
    {
        let mut x: i16 = 0;
        while x < w16
            invariant
                grid_wf(map@, dims),
                all_rivers@.len() == map@.len(),
                rivers_have_sprites(map@, all_rivers@, dims),
                h16 as int == crate::map::tile_map::as_i16(dims.height),
                w16 as int == crate::map::tile_map::as_i16(dims.width),
                0 <= y < h16,
                0 <= x,
                river_data@.len() == total(dims),
                forall|xx: int, yy: int|
                    in_bounds(dims, xx, yy) && (yy < y || (yy == y && xx < x))
                        ==> #[trigger] river_data@[tile_index(dims, xx, yy)] == river_entry(map@, all_rivers@, dims, xx, yy),
                forall|i: int|
                    0 <= i < river_data@.len() && (#[trigger] river_data@[i]) is Some ==> all_rivers@[i] is Some,
            decreases w16 - x,
        {
            proof {
                lemma_index_in_grid(dims, x as int, y as int);
            }
            let idx = cords_to_index(dims, MapCord::new(x, y));
            let ghost before = river_data@;
            match all_rivers[idx] {
                Some(dir) => {
                    assert(all_rivers@[tile_index(dims, x as int, y as int)] is Some);
                    let piece = river_piece_at(map, all_rivers, dims, x, y, dir);
                    river_data[idx] = Some(piece);
                },
                None => {},
            }
            proof {
                assert forall|xx: int, yy: int|
                    in_bounds(dims, xx, yy) && (yy < y || (yy == y && xx < x + 1)) implies
                    #[trigger] river_data@[tile_index(dims, xx, yy)] == river_entry(map@, all_rivers@, dims, xx, yy) by {
                    lemma_index_in_grid(dims, xx, yy);
                    if tile_index(dims, xx, yy) == idx as int {
                        lemma_index_injective(dims, xx, yy, x as int, y as int);
                    } else {
                        assert(xx != x || yy != y);
                        assert(before[tile_index(dims, xx, yy)] == river_entry(map@, all_rivers@, dims, xx, yy));
                    }
                }
            }
            x = x + 1;
        }
        y = y + 1;
    }
    river_data
}

/// The first on-map tile, in row-major order, with a flow direction and no
/// river side or river on all four sides; `None` when there is none, that
/// is, when `set_river_tile_animations` may be called.
pub fn first_river_without_sprite(all_rivers: &RiverGrid, map: &MapTileGrid, map_dimensions: MapDimensions) -> (r: Option<MapCord>)
    requires
        grid_wf(map@, map_dimensions),
        all_rivers@.len() == map@.len(),
    ensures
        r is None <==> rivers_have_sprites(map@, all_rivers@, map_dimensions),
        r matches Some(c) ==> cord_in_bounds(map_dimensions, c) && all_rivers@[cord_index(map_dimensions, c)] is Some
            && !(1 <= river_side_count(map@, map_dimensions, c.x as int, c.y as int) <= 3),
{
    let dims = map_dimensions;
    proof {
        lemma_as_i16(dims.width);
        lemma_as_i16(dims.height);
    }
    let h16 = dims.height as i16;
    let w16 = dims.width as i16;
    let mut y: i16 = 0;
    while y < h16
        invariant
            grid_wf(map@, dims),
            dims == map_dimensions,
            all_rivers@.len() == map@.len(),
            h16 as int == crate::map::tile_map::as_i16(dims.height),
            w16 as int == crate::map::tile_map::as_i16(dims.width),
            0 <= y,
            forall|xx: int, yy: int|
                in_bounds(dims, xx, yy) && yy < y && (#[trigger] all_rivers@[tile_index(dims, xx, yy)]) is Some
                    ==> 1 <= river_side_count(map@, dims, xx, yy) <= 3,
        decreases h16 - y,
    {
        let mut x: i16 = 0;
        while x < w16
            invariant
                grid_wf(map@, dims),
                dims == map_dimensions,
                all_rivers@.len() == map@.len(),
                h16 as int == crate::map::tile_map::as_i16(dims.height),
                w16 as int == crate::map::tile_map::as_i16(dims.width),
                0 <= y < h16,
                0 <= x,
                forall|xx: int, yy: int|
                    in_bounds(dims, xx, yy) && (yy < y || (yy == y && xx < x)) && (#[trigger] all_rivers@[tile_index(
                        dims,
                        xx,
                        yy,
                    )]) is Some ==> 1 <= river_side_count(map@, dims, xx, yy) <= 3,
            decreases w16 - x,
        {
            proof {
                lemma_index_in_grid(dims, x as int, y as int);
            }
            let idx = cords_to_index(dims, MapCord::new(x, y));
            if all_rivers[idx].is_some() {
                let sides = river_sides_of(map, dims, x, y);
                let mut n: u8 = 0;
                if sides[0] {
                    n = n + 1;
                }
                if sides[1] {
                    n = n + 1;
                }
                if sides[2] {
                    n = n + 1;
                }
                if sides[3] {
                    n = n + 1;
                }
                assert(n == river_side_count(map@, dims, x as int, y as int));
                if n == 0 || n == 4 {
                    assert(!rivers_have_sprites(map@, all_rivers@, dims)) by {
                        assert(in_bounds(dims, x as int, y as int));
                        assert(all_rivers@[tile_index(dims, x as int, y as int)] is Some);
                        assert(!(1 <= river_side_count(map@, dims, x as int, y as int) <= 3));
                    }
                    return Some(MapCord::new(x, y));
                }
            }
            proof {
                assert forall|xx: int, yy: int|
                    in_bounds(dims, xx, yy) && (yy < y || (yy == y && xx < x + 1)) && (#[trigger] all_rivers@[tile_index(
                        dims,
                        xx,
                        yy,
                    )]) is Some implies 1 <= river_side_count(map@, dims, xx, yy) <= 3 by {
                    if yy == y && xx == x {
                    } else {
                        assert(yy < y || (yy == y && xx < x));
                    }
                }
            }
            x = x + 1;
        }
        y = y + 1;
    }
    None
}

/// Whether every on-map tile with a flow direction has one, two or three
/// river sides, that is, whether `set_river_tile_animations` may be called.
pub fn rivers_have_valid_neighbors(all_rivers: &RiverGrid, map: &MapTileGrid, map_dimensions: MapDimensions) -> (b: bool)
    requires
        grid_wf(map@, map_dimensions),
        all_rivers@.len() == map@.len(),
    ensures
        b == rivers_have_sprites(map@, all_rivers@, map_dimensions),
{
    first_river_without_sprite(all_rivers, map, map_dimensions).is_none()
}


/// `new` comes from `old` by putting objects of kind `kind` on tiles that
/// were free and are grass in `tiles`; nothing else changes.
pub open spec fn placed_on_free_grass(
    tiles: Seq<TileType>,
    old: Seq<Option<ObjectKind>>,
    new: Seq<Option<ObjectKind>>,
    kind: ObjectKind,
) -> bool {
    &&& new.len() == old.len()
    &&& forall|i: int|
        0 <= i < new.len() ==> #[trigger] new[i] == old[i] || (old[i] is None && new[i] == Some(kind) && tiles[i]
            == TileType::Grass)
}

/// The point `r` steps from `c` in cardinal direction `i`, when both of its
/// components fit in `i16`.
fn offset(c: MapCord, i: usize, r: i32) -> (o: Option<MapCord>)
    requires
        i < 4,
        -1_000_000 <= r <= 1_000_000,
    ensures
        ({
            let (dx, dy) = cardinal_step(i as int);
            let x = c.x + dx * r;
            let y = c.y + dy * r;
            &&& o is None <==> !(i16::MIN <= x <= i16::MAX && i16::MIN <= y <= i16::MAX)
            &&& o matches Some(oc) ==> oc.x == x && oc.y == y
        }),
        o == offset_spec(c, i as int, r as int),
{
    let d = cardinal_delta(i);
    let dxr: i32 = if d.x == 1 {
        r
    } else if d.x == -1 {
        -r
    } else {
        0
    };
    let dyr: i32 = if d.y == 1 {
        r
    } else if d.y == -1 {
        -r
    } else {
        0
    };
    assert(d.x * r == dxr) by (nonlinear_arith)
        requires
            d.x == 1 || d.x == -1 || d.x == 0,
            d.x == 1 ==> dxr == r,
            d.x == -1 ==> dxr == -r,
            d.x == 0 ==> dxr == 0,
    ;
    assert(d.y * r == dyr) by (nonlinear_arith)
        requires
            d.y == 1 || d.y == -1 || d.y == 0,
            d.y == 1 ==> dyr == r,
            d.y == -1 ==> dyr == -r,
            d.y == 0 ==> dyr == 0,
    ;
    let x: i32 = c.x as i32 + dxr;
    let y: i32 = c.y as i32 + dyr;
    if x < -32768 || x > 32767 || y < -32768 || y > 32767 {
        None
    } else {
        Some(MapCord::new(x as i16, y as i16))
    }
}

/// Puts an object of kind `kind` at `c` when `c` is a free grass tile on the
/// map.
fn place_if_free_grass(
    tile_grid: &MapTileGrid,
    object_grid: &mut ObjectKindGrid,
    dims: MapDimensions,
    c: MapCord,
    kind: ObjectKind,
)
    requires
        grid_wf(tile_grid@, dims),
        old(object_grid)@.len() == tile_grid@.len(),
    ensures
        placed_on_free_grass(tile_grid@, old(object_grid)@, final(object_grid)@, kind),
        cord_in_bounds(dims, c) && tile_grid@[cord_index(dims, c)] == TileType::Grass && old(
            object_grid,
        )@[cord_index(dims, c)] is None ==> final(object_grid)@ == old(object_grid)@.update(
            cord_index(dims, c),
            Some(kind),
        ),
        !(cord_in_bounds(dims, c) && tile_grid@[cord_index(dims, c)] == TileType::Grass && old(
            object_grid,
        )@[cord_index(dims, c)] is None) ==> final(object_grid)@ == old(object_grid)@,
        final(object_grid)@ == place_spec(tile_grid@, dims, old(object_grid)@, c, kind),
{
    if !is_tile_in_bounds(dims, c) {
        return;
    }
    proof {
        lemma_index_in_grid(dims, c.x as int, c.y as int);
    }
    if get_tile_at_cord(tile_grid, dims, c) != TileType::Grass {
        return;
    }
    let idx = cords_to_index(dims, c);
    if object_grid[idx].is_none() {
        object_grid[idx] = Some(kind);
    }
}

/// The point `rr` steps from `origin` in cardinal direction `d` is a tile of
/// the map with index `i`.
pub open spec fn reaches(dims: MapDimensions, origin: MapCord, d: int, rr: int, i: int) -> bool {
    let (dx, dy) = cardinal_step(d);
    &&& 0 <= d < 4
    &&& 0 <= rr
    &&& in_bounds(dims, origin.x + dx * rr, origin.y + dy * rr)
    &&& tile_index(dims, origin.x + dx * rr, origin.y + dy * rr) == i
}

/// The tile with index `i` lies at most `hi` steps from `origin` in one of
/// the four cardinal directions.
pub open spec fn within_reach(dims: MapDimensions, origin: MapCord, hi: int, i: int) -> bool {
    exists|d: int, rr: int| rr <= hi && #[trigger] reaches(dims, origin, d, rr, i)
}

/// Every tile that had no object in `old` and has one in `new` lies within
/// reach `hi` of one of `origins`.
pub open spec fn placed_near(
    old: Seq<Option<ObjectKind>>,
    new: Seq<Option<ObjectKind>>,
    dims: MapDimensions,
    origins: Seq<MapCord>,
    hi: int,
) -> bool {
    forall|i: int|
        0 <= i < new.len() && old[i] is None && (#[trigger] new[i]) is Some ==> exists|k: int|
            0 <= k < origins.len() && #[trigger] within_reach(dims, origins[k], hi, i)
}

/// Placing one object at a tile within reach of origin `k` keeps every
/// placed object near the origins.
proof fn lemma_placed_near_step(
    start: Seq<Option<ObjectKind>>,
    before: Seq<Option<ObjectKind>>,
    after: Seq<Option<ObjectKind>>,
    dims: MapDimensions,
    origins: Seq<MapCord>,
    hi: int,
    k: int,
    d: int,
    rr: int,
    idx: int,
    kind: ObjectKind,
)
    requires
        placed_near(start, before, dims, origins, hi),
        before.len() == start.len(),
        0 <= k < origins.len(),
        rr <= hi,
        reaches(dims, origins[k], d, rr, idx),
        0 <= idx < before.len(),
        after == before || after == before.update(idx, Some(kind)),
    ensures
        placed_near(start, after, dims, origins, hi),
{
    assert forall|i: int| 0 <= i < after.len() && start[i] is None && (#[trigger] after[i]) is Some implies exists|k2: int|
        0 <= k2 < origins.len() && #[trigger] within_reach(dims, origins[k2], hi, i) by {
        if after != before && i == idx {
            assert(within_reach(dims, origins[k], hi, i));
        } else {
            assert(after[i] == before[i]);
            assert(0 <= i < before.len() && start[i] is None && before[i] is Some);
        }
    }
}

/// Placements near one origin, within a smaller reach, are near the
/// origins.
proof fn lemma_placed_near_join(
    start: Seq<Option<ObjectKind>>,
    before: Seq<Option<ObjectKind>>,
    after: Seq<Option<ObjectKind>>,
    dims: MapDimensions,
    origins: Seq<MapCord>,
    hi: int,
    k: int,
    range: int,
)
    requires
        placed_near(start, before, dims, origins, hi),
        placed_near(before, after, dims, seq![origins[k]], range),
        before.len() == start.len(),
        after.len() == before.len(),
        0 <= k < origins.len(),
        range <= hi,
    ensures
        placed_near(start, after, dims, origins, hi),
{
    assert forall|i: int| 0 <= i < after.len() && start[i] is None && (#[trigger] after[i]) is Some implies exists|k2: int|
        0 <= k2 < origins.len() && #[trigger] within_reach(dims, origins[k2], hi, i) by {
        if before[i] is Some {
            assert(0 <= i < before.len() && start[i] is None && before[i] is Some);
        } else {
            let k3 = choose|k3: int| 0 <= k3 < 1 && #[trigger] within_reach(dims, seq![origins[k]][k3], range, i);
            assert(within_reach(dims, origins[k], range, i));
            let (d, rr) = choose|d: int, rr: int| rr <= range && #[trigger] reaches(dims, origins[k], d, rr, i);
            assert(within_reach(dims, origins[k], hi, i));
        }
    }
}

/// Every tile that had no object in `old` and has one in `new` lies within
/// reach `hi` of a tile with a river sprite.
pub open spec fn placed_near_rivers(
    old: Seq<Option<ObjectKind>>,
    new: Seq<Option<ObjectKind>>,
    dims: MapDimensions,
    river_tiles: Seq<Option<RiverSpriteData>>,
    hi: int,
) -> bool {
    forall|i: int|
        0 <= i < new.len() && old[i] is None && (#[trigger] new[i]) is Some ==> exists|c: MapCord|
            cord_in_bounds(dims, c) && river_tiles[cord_index(dims, c)] is Some && #[trigger] within_reach(dims, c, hi, i)
}

/// Placements near one river tile, within a smaller reach, are near the
/// river tiles.
proof fn lemma_placed_near_river_join(
    start: Seq<Option<ObjectKind>>,
    before: Seq<Option<ObjectKind>>,
    after: Seq<Option<ObjectKind>>,
    dims: MapDimensions,
    river_tiles: Seq<Option<RiverSpriteData>>,
    hi: int,
    c: MapCord,
    range: int,
)
    requires
        placed_near_rivers(start, before, dims, river_tiles, hi),
        placed_near(before, after, dims, seq![c], range),
        cord_in_bounds(dims, c),
        river_tiles[cord_index(dims, c)] is Some,
        before.len() == start.len(),
        after.len() == before.len(),
        range <= hi,
    ensures
        placed_near_rivers(start, after, dims, river_tiles, hi),
{
    assert forall|i: int| 0 <= i < after.len() && start[i] is None && (#[trigger] after[i]) is Some implies exists|c2: MapCord|
        cord_in_bounds(dims, c2) && river_tiles[cord_index(dims, c2)] is Some && #[trigger] within_reach(dims, c2, hi, i) by {
        if before[i] is Some {
            assert(0 <= i < before.len() && start[i] is None && before[i] is Some);
        } else {
            let k3 = choose|k3: int| 0 <= k3 < 1 && #[trigger] within_reach(dims, seq![c][k3], range, i);
            assert(within_reach(dims, c, range, i));
            let (d, rr) = choose|d: int, rr: int| rr <= range && #[trigger] reaches(dims, c, d, rr, i);
            assert(within_reach(dims, c, hi, i));
        }
    }
}

/// Two rounds of placing objects of one kind on free grass make one such
/// round: every tile keeps its object or got one of that kind on free grass.
pub proof fn lemma_placed_trans(
    tiles: Seq<TileType>,
    a: Seq<Option<ObjectKind>>,
    b: Seq<Option<ObjectKind>>,
    c: Seq<Option<ObjectKind>>,
    kind: ObjectKind,
)
    requires
        placed_on_free_grass(tiles, a, b, kind),
        placed_on_free_grass(tiles, b, c, kind),
    ensures
        placed_on_free_grass(tiles, a, c, kind),
{
    assert forall|i: int| 0 <= i < c.len() implies #[trigger] c[i] == a[i] || (a[i] is None && c[i] == Some(kind)
        && tiles[i] == TileType::Grass) by {
        assert(c[i] == b[i] || (b[i] is None && c[i] == Some(kind) && tiles[i] == TileType::Grass));
        assert(b[i] == a[i] || (a[i] is None && b[i] == Some(kind) && tiles[i] == TileType::Grass));
    }
}

/// Trees around one lake tile `origin` within `range`, from direction `dir`
/// and distance `r` on, reading draws from `at`: each tile 0 to `range`
/// steps away in each cardinal direction, in order, that is a grass tile of
/// the map gets a tree with chance 1 in 10 when it is free.
pub open spec fn ring_spec(
    tiles: Seq<TileType>,
    dims: MapDimensions,
    objs: Seq<Option<ObjectKind>>,
    origin: MapCord,
    range: int,
    dir: int,
    r: int,
    ds: Seq<Draw>,
    at: int,
) -> (Seq<Option<ObjectKind>>, int, bool)
    decreases 4 - dir, range + 1 - r,
{
    if dir >= 4 || dir < 0 {
        (objs, at, true)
    } else if r > range {
        ring_spec(tiles, dims, objs, origin, range, dir + 1, 0, ds, at)
    } else {
        match offset_spec(origin, dir, r) {
            Some(t) => if cord_in_bounds(dims, t) && tiles[cord_index(dims, t)] == TileType::Grass {
                match flip_at(ds, at, 1, 10) {
                    None => (objs, at, false),
                    Some(hit) => ring_spec(
                        tiles,
                        dims,
                        if hit { place_spec(tiles, dims, objs, t, ObjectKind::Tree) } else { objs },
                        origin,
                        range,
                        dir,
                        r + 1,
                        ds,
                        at + 1,
                    ),
                }
            } else {
                ring_spec(tiles, dims, objs, origin, range, dir, r + 1, ds, at)
            },
            None => ring_spec(tiles, dims, objs, origin, range, dir, r + 1, ds, at),
        }
    }
}

/// The lake tiles from number `k` on, once the current one gave `res`.
pub open spec fn after_ring(
    tiles: Seq<TileType>,
    dims: MapDimensions,
    res: (Seq<Option<ObjectKind>>, int, bool),
    lake_tiles: Seq<MapCord>,
    k: int,
    ds: Seq<Draw>,
) -> (Seq<Option<ObjectKind>>, int, bool) {
    if !res.2 {
        res
    } else {
        lakes_forest_spec(tiles, dims, res.0, lake_tiles, k, ds, res.1)
    }
}

/// Trees around the lake tiles from number `k` on, reading draws from `at`:
/// for each, a reach from 1 to 10, then trees tried around it.
pub open spec fn lakes_forest_spec(
    tiles: Seq<TileType>,
    dims: MapDimensions,
    objs: Seq<Option<ObjectKind>>,
    lake_tiles: Seq<MapCord>,
    k: int,
    ds: Seq<Draw>,
    at: int,
) -> (Seq<Option<ObjectKind>>, int, bool)
    decreases lake_tiles.len() - k, 0int,
{
    if k >= lake_tiles.len() || k < 0 {
        (objs, at, true)
    } else {
        match pick_i32_at(ds, at, 1, 10) {
            None => (objs, at, false),
            Some(range) => {
                let res = ring_spec(tiles, dims, objs, lake_tiles[k], range as int, 0, 0, ds, at + 1);
                if !res.2 {
                    res
                } else {
                    lakes_forest_spec(tiles, dims, res.0, lake_tiles, k + 1, ds, res.1)
                }
            },
        }
    }
}

/// Plants trees around the given lake tiles: from each lake tile, a random
/// reach of 1 to 10 tiles is drawn, and every tile 0 to that many steps away
/// in each cardinal direction gets a tree with chance 1 in 10 when it is a
/// free grass tile. So every new tree stands at most 10 steps from one of
/// the lake tiles, straight along a row or a column.
/// The outcome is what `lakes_forest_spec` gives for some list of draws; for given
/// draws, `spawn_forests_around_lakes_with` states it.
pub fn spawn_forests_around_lakes(
    tile_grid: &MapTileGrid,
    object_grid: &mut ObjectKindGrid,
    lake_tiles: Vec<MapCord>,
    map_dimensions: MapDimensions,
    rng: &mut ThreadRng,
)
    requires
        grid_wf(tile_grid@, map_dimensions),
        old(object_grid)@.len() == tile_grid@.len(),
    ensures
        placed_on_free_grass(tile_grid@, old(object_grid)@, final(object_grid)@, ObjectKind::Tree),
        placed_near(old(object_grid)@, final(object_grid)@, map_dimensions, lake_tiles@, 10),
        exists|ds: Seq<Draw>|
            #[trigger] lakes_forest_spec(tile_grid@, map_dimensions, old(object_grid)@, lake_tiles@, 0, ds, 0)
                == (final(object_grid)@, ds.len() as int, true),
{
    let mut draws = RandomDraws::new(rng);
    spawn_forests_around_lakes_with(tile_grid, object_grid, lake_tiles, map_dimensions, &mut draws);
}

/// The trees of `spawn_forests_around_lakes`, with the draws taken from
/// `draws`: the objects come out as `lakes_forest_spec` gives them for the
/// draws made.
pub fn spawn_forests_around_lakes_with<D: DrawSource>(
    tile_grid: &MapTileGrid,
    object_grid: &mut ObjectKindGrid,
    lake_tiles: Vec<MapCord>,
    map_dimensions: MapDimensions,
    draws: &mut D,
)
    requires
        grid_wf(tile_grid@, map_dimensions),
        old(object_grid)@.len() == tile_grid@.len(),
    ensures
        placed_on_free_grass(tile_grid@, old(object_grid)@, final(object_grid)@, ObjectKind::Tree),
        placed_near(old(object_grid)@, final(object_grid)@, map_dimensions, lake_tiles@, 10),
        starts_with(final(draws).drawn(), old(draws).drawn()),
        lakes_forest_spec(tile_grid@, map_dimensions, old(object_grid)@, lake_tiles@, 0, final(draws).drawn(), old(draws).drawn().len() as int)
            == (final(object_grid)@, final(draws).drawn().len() as int, true),
        forall|ds: Seq<Draw>|
            #[trigger] starts_with(ds, final(draws).drawn()) ==> lakes_forest_spec(
                tile_grid@,
                map_dimensions,
                old(object_grid)@,
                lake_tiles@,
                0,
                ds,
                old(draws).drawn().len() as int,
            ) == (final(object_grid)@, final(draws).drawn().len() as int, true),
{
    let dims = map_dimensions;
    let ghost start = object_grid@;
    let ghost d0 = draws.drawn();
    let ghost tiles = tile_grid@;
    proof {
        lemma_starts_with_push(d0, Draw::Flip { numerator: 1, denominator: 2, outcome: true });
    }
    let n = lake_tiles.len();
    let mut k: usize = 0;
    while k < n
        invariant
            n == lake_tiles@.len(),
            k <= n,
            grid_wf(tile_grid@, dims),
            object_grid@.len() == tile_grid@.len(),
            placed_on_free_grass(tile_grid@, start, object_grid@, ObjectKind::Tree),
            placed_near(start, object_grid@, dims, lake_tiles@, 10),
            tiles == tile_grid@,
            starts_with(draws.drawn(), d0),
            forall|ds: Seq<Draw>|
                #[trigger] starts_with(ds, draws.drawn()) ==> lakes_forest_spec(tiles, dims, start, lake_tiles@, 0, ds, d0.len() as int)
                    == lakes_forest_spec(tiles, dims, object_grid@, lake_tiles@, k as int, ds, draws.drawn().len() as int),
        decreases n - k,
    {
        let lake_tile = lake_tiles[k];
        let ghost d_k = draws.drawn();
        let range = draws.pick_i32(1, 10);
        proof {
            lemma_starts_with_push(d_k, Draw::PickI32 { lo: 1, hi: 10, value: range });
            lemma_starts_with_trans(draws.drawn(), d_k, d0);
            assert forall|ds: Seq<Draw>| #[trigger] starts_with(ds, draws.drawn()) implies lakes_forest_spec(tiles, dims, start, lake_tiles@, 0, ds, d0.len() as int)
                == after_ring(tiles, dims, ring_spec(tiles, dims, object_grid@, lake_tile, range as int, 0, 0, ds, draws.drawn().len() as int), lake_tiles@, k + 1, ds) by {
                lemma_starts_with_trans(ds, draws.drawn(), d_k);
                assert(ds[d_k.len() as int] == draws.drawn()[d_k.len() as int]);
                assert(pick_i32_at(ds, d_k.len() as int, 1, 10) == Some(range));
            }
        }
        let mut dir: usize = 0;
        while dir < 4
            invariant
                dir <= 4,
                1 <= range <= 10,
                grid_wf(tile_grid@, dims),
                object_grid@.len() == tile_grid@.len(),
                placed_on_free_grass(tile_grid@, start, object_grid@, ObjectKind::Tree),
                placed_near(start, object_grid@, dims, lake_tiles@, 10),
                k < n,
                n == lake_tiles@.len(),
                lake_tile == lake_tiles@[k as int],
                tiles == tile_grid@,
                starts_with(draws.drawn(), d0),
                forall|ds: Seq<Draw>|
                    #[trigger] starts_with(ds, draws.drawn()) ==> lakes_forest_spec(tiles, dims, start, lake_tiles@, 0, ds, d0.len() as int)
                        == after_ring(tiles, dims, ring_spec(tiles, dims, object_grid@, lake_tile, range as int, dir as int, 0, ds, draws.drawn().len() as int), lake_tiles@, k + 1, ds),
            decreases 4 - dir,
        {
            let mut r: i32 = 0;
            while r <= range
                invariant
                    dir < 4,
                    0 <= r <= range + 1,
                    1 <= range <= 10,
                    grid_wf(tile_grid@, dims),
                    object_grid@.len() == tile_grid@.len(),
                    placed_on_free_grass(tile_grid@, start, object_grid@, ObjectKind::Tree),
                    placed_near(start, object_grid@, dims, lake_tiles@, 10),
                    k < n,
                    n == lake_tiles@.len(),
                    lake_tile == lake_tiles@[k as int],
                    tiles == tile_grid@,
                    starts_with(draws.drawn(), d0),
                    forall|ds: Seq<Draw>|
                        #[trigger] starts_with(ds, draws.drawn()) ==> lakes_forest_spec(tiles, dims, start, lake_tiles@, 0, ds, d0.len() as int)
                            == after_ring(tiles, dims, ring_spec(tiles, dims, object_grid@, lake_tile, range as int, dir as int, r as int, ds, draws.drawn().len() as int), lake_tiles@, k + 1, ds),
                decreases range + 1 - r,
            {
                let ghost o_r = object_grid@;
                let ghost d_r = draws.drawn();
                if let Some(target) = offset(lake_tile, dir, r) {
                    if is_tile_in_bounds(dims, target) {
                        proof {
                            lemma_index_in_grid(dims, target.x as int, target.y as int);
                        }
                        if get_tile_at_cord(tile_grid, dims, target) == TileType::Grass {
                            let hit = draws.chance(1, 10);
                            proof {
                                lemma_starts_with_push(d_r, Draw::Flip { numerator: 1, denominator: 10, outcome: hit });
                                lemma_starts_with_trans(draws.drawn(), d_r, d0);
                            }
                            if hit {
                                let ghost before = object_grid@;
                                place_if_free_grass(tile_grid, object_grid, dims, target, ObjectKind::Tree);
                                proof {
                                    lemma_placed_trans(tile_grid@, start, before, object_grid@, ObjectKind::Tree);
                                    assert(reaches(dims, lake_tile, dir as int, r as int, cord_index(dims, target)));
                                    lemma_placed_near_step(start, before, object_grid@, dims, lake_tiles@, 10, k as int, dir as int, r as int, cord_index(dims, target), ObjectKind::Tree);
                                }
                            }
                        }
                    }
                }
                proof {
                    assert forall|ds: Seq<Draw>| #[trigger] starts_with(ds, draws.drawn()) implies lakes_forest_spec(tiles, dims, start, lake_tiles@, 0, ds, d0.len() as int)
                        == after_ring(tiles, dims, ring_spec(tiles, dims, object_grid@, lake_tile, range as int, dir as int, r + 1, ds, draws.drawn().len() as int), lake_tiles@, k + 1, ds) by {
                        if draws.drawn().len() > d_r.len() {
                            lemma_starts_with_trans(ds, draws.drawn(), d_r);
                            assert(ds[d_r.len() as int] == draws.drawn()[d_r.len() as int]);
                        }
                    }
                }
                r = r + 1;
            }
            proof {
                assert forall|ds: Seq<Draw>| #[trigger] starts_with(ds, draws.drawn()) implies lakes_forest_spec(tiles, dims, start, lake_tiles@, 0, ds, d0.len() as int)
                    == after_ring(tiles, dims, ring_spec(tiles, dims, object_grid@, lake_tile, range as int, dir + 1, 0, ds, draws.drawn().len() as int), lake_tiles@, k + 1, ds) by {
                }
            }
            dir = dir + 1;
        }
        proof {
            assert forall|ds: Seq<Draw>| #[trigger] starts_with(ds, draws.drawn()) implies lakes_forest_spec(tiles, dims, start, lake_tiles@, 0, ds, d0.len() as int)
                == lakes_forest_spec(tiles, dims, object_grid@, lake_tiles@, k + 1, ds, draws.drawn().len() as int) by {
            }
        }
        k = k + 1;
    }
    proof {
        lemma_starts_with_push(draws.drawn(), Draw::Flip { numerator: 1, denominator: 2, outcome: true });
    }
}

/// Grass around the lake tiles from number `k` on, reading draws from `at`:
/// for each, a reach from 3 to 17, lengthened with chance 3 in 5 by 2 to 5,
/// then grass spread from it with chance 1 in 10 per tile.
pub open spec fn lakes_grass_spec(
    tiles: Seq<TileType>,
    dims: MapDimensions,
    objs: Seq<Option<ObjectKind>>,
    lake_tiles: Seq<MapCord>,
    k: int,
    ds: Seq<Draw>,
    at: int,
) -> (Seq<Option<ObjectKind>>, int, bool)
    decreases lake_tiles.len() - k,
{
    if k >= lake_tiles.len() || k < 0 {
        (objs, at, true)
    } else {
        match (pick_i32_at(ds, at, 3, 17), flip_at(ds, at + 1, 3, 5)) {
            (Some(r0), Some(more)) => {
                let extra = if more { pick_i32_at(ds, at + 2, 2, 5) } else { Some(0i32) };
                match extra {
                    None => (objs, at, false),
                    Some(e) => {
                        let sp = spread_spec(tiles, dims, objs, lake_tiles[k], r0 + e, 1, 10, 0, 1, ds, if more { at + 3 } else { at + 2 });
                        if !sp.2 {
                            sp
                        } else {
                            lakes_grass_spec(tiles, dims, sp.0, lake_tiles, k + 1, ds, sp.1)
                        }
                    },
                }
            },
            _ => (objs, at, false),
        }
    }
}

/// Plants grass around the given lake tiles: from each lake tile, a random
/// reach of 3 to 17 tiles is drawn, lengthened by 2 to 5 with chance 3 in 5,
/// and every tile 1 to that many steps away in each cardinal direction gets
/// grass with chance 1 in 10 when it is a free grass tile. So every new grass
/// object stands at most 22 steps from one of the lake tiles, straight along
/// a row or a column.
/// The outcome is what `lakes_grass_spec` gives for some list of draws; for given
/// draws, `spawn_grass_around_lakes_with` states it.
pub fn spawn_grass_around_lakes(
    tile_grid: &MapTileGrid,
    object_grid: &mut ObjectKindGrid,
    lake_tiles: Vec<MapCord>,
    map_dimensions: MapDimensions,
    rng: &mut ThreadRng,
)
    requires
        grid_wf(tile_grid@, map_dimensions),
        old(object_grid)@.len() == tile_grid@.len(),
    ensures
        placed_on_free_grass(tile_grid@, old(object_grid)@, final(object_grid)@, ObjectKind::Grass),
        placed_near(old(object_grid)@, final(object_grid)@, map_dimensions, lake_tiles@, 22),
        exists|ds: Seq<Draw>|
            #[trigger] lakes_grass_spec(tile_grid@, map_dimensions, old(object_grid)@, lake_tiles@, 0, ds, 0)
                == (final(object_grid)@, ds.len() as int, true),
{
    let mut draws = RandomDraws::new(rng);
    spawn_grass_around_lakes_with(tile_grid, object_grid, lake_tiles, map_dimensions, &mut draws);
}

/// The grass of `spawn_grass_around_lakes`, with the draws taken from
/// `draws`: the objects come out as `lakes_grass_spec` gives them for the
/// draws made.
pub fn spawn_grass_around_lakes_with<D: DrawSource>(
    tile_grid: &MapTileGrid,
    object_grid: &mut ObjectKindGrid,
    lake_tiles: Vec<MapCord>,
    map_dimensions: MapDimensions,
    draws: &mut D,
)
    requires
        grid_wf(tile_grid@, map_dimensions),
        old(object_grid)@.len() == tile_grid@.len(),
    ensures
        placed_on_free_grass(tile_grid@, old(object_grid)@, final(object_grid)@, ObjectKind::Grass),
        placed_near(old(object_grid)@, final(object_grid)@, map_dimensions, lake_tiles@, 22),
        starts_with(final(draws).drawn(), old(draws).drawn()),
        lakes_grass_spec(tile_grid@, map_dimensions, old(object_grid)@, lake_tiles@, 0, final(draws).drawn(), old(draws).drawn().len() as int)
            == (final(object_grid)@, final(draws).drawn().len() as int, true),
        forall|ds: Seq<Draw>|
            #[trigger] starts_with(ds, final(draws).drawn()) ==> lakes_grass_spec(
                tile_grid@,
                map_dimensions,
                old(object_grid)@,
                lake_tiles@,
                0,
                ds,
                old(draws).drawn().len() as int,
            ) == (final(object_grid)@, final(draws).drawn().len() as int, true),
{
    let dims = map_dimensions;
    let ghost start = object_grid@;
    let ghost d0 = draws.drawn();
    let ghost tiles = tile_grid@;
    proof {
        lemma_starts_with_push(d0, Draw::Flip { numerator: 1, denominator: 2, outcome: true });
    }
    let n = lake_tiles.len();
    let mut k: usize = 0;
    while k < n
        invariant
            n == lake_tiles@.len(),
            k <= n,
            grid_wf(tile_grid@, dims),
            object_grid@.len() == tile_grid@.len(),
            placed_on_free_grass(tile_grid@, start, object_grid@, ObjectKind::Grass),
            placed_near(start, object_grid@, dims, lake_tiles@, 22),
            tiles == tile_grid@,
            starts_with(draws.drawn(), d0),
            forall|ds: Seq<Draw>|
                #[trigger] starts_with(ds, draws.drawn()) ==> lakes_grass_spec(tiles, dims, start, lake_tiles@, 0, ds, d0.len() as int)
                    == lakes_grass_spec(tiles, dims, object_grid@, lake_tiles@, k as int, ds, draws.drawn().len() as int),
        decreases n - k,
    {
        let lake_tile = lake_tiles[k];
        let ghost d_k = draws.drawn();
        let r0 = draws.pick_i32(3, 17);
        let ghost d_1 = draws.drawn();
        let more = draws.chance(3, 5);
        let ghost d_2 = draws.drawn();
        let mut range = r0;
        if more {
            let extra = draws.pick_i32(2, 5);
            range = r0 + extra;
        }
        let ghost d_3 = draws.drawn();
        proof {
            lemma_starts_with_push(d_k, Draw::PickI32 { lo: 3, hi: 17, value: r0 });
            lemma_starts_with_push(d_1, Draw::Flip { numerator: 3, denominator: 5, outcome: more });
            lemma_starts_with_trans(d_2, d_1, d_k);
            if more {
                lemma_starts_with_push(d_2, draws.drawn().last());
                assert(d_3 == d_2.push(d_3.last()));
            }
            lemma_starts_with_trans(d_3, d_2, d_k);
        }
        let ghost before = object_grid@;
        spread_grass(tile_grid, object_grid, dims, lake_tile, range, 1, 10, draws);
        proof {
            lemma_placed_near_join(start, before, object_grid@, dims, lake_tiles@, 22, k as int, range as int);
            lemma_starts_with_trans(draws.drawn(), d_3, d_k);
            lemma_starts_with_trans(draws.drawn(), d_k, d0);
            assert forall|ds: Seq<Draw>| #[trigger] starts_with(ds, draws.drawn()) implies lakes_grass_spec(tiles, dims, start, lake_tiles@, 0, ds, d0.len() as int)
                == lakes_grass_spec(tiles, dims, object_grid@, lake_tiles@, k + 1, ds, draws.drawn().len() as int) by {
                lemma_starts_with_trans(ds, draws.drawn(), d_3);
                lemma_starts_with_trans(ds, d_3, d_k);
                assert(ds[d_k.len() as int] == d_3[d_k.len() as int]);
                assert(ds[d_k.len() as int + 1] == d_3[d_k.len() as int + 1]);
                if more {
                    assert(ds[d_k.len() as int + 2] == d_3[d_k.len() as int + 2]);
                }
                assert(lake_tile == lake_tiles@[k as int]);
            }
        }
        k = k + 1;
    }
    proof {
        lemma_starts_with_push(draws.drawn(), Draw::Flip { numerator: 1, denominator: 2, outcome: true });
    }
}

/// The tile `r` steps from `origin` in cardinal direction `d`, when it is a
/// grass tile on the map, holds an object in `objs`.
pub open spec fn spread_reached(
    tiles: Seq<TileType>,
    objs: Seq<Option<ObjectKind>>,
    dims: MapDimensions,
    origin: MapCord,
    d: int,
    r: int,
) -> bool {
    let (dx, dy) = cardinal_step(d);
    let x = origin.x + dx * r;
    let y = origin.y + dy * r;
    in_bounds(dims, x, y) && tiles[tile_index(dims, x, y)] == TileType::Grass ==> objs[tile_index(dims, x, y)] is Some
}

/// Placing objects on free grass keeps every reached tile reached.
proof fn lemma_reached_kept(
    tiles: Seq<TileType>,
    a: Seq<Option<ObjectKind>>,
    b: Seq<Option<ObjectKind>>,
    kind: ObjectKind,
    dims: MapDimensions,
    origin: MapCord,
    d: int,
    r: int,
)
    requires
        grid_wf(tiles, dims),
        a.len() == tiles.len(),
        placed_on_free_grass(tiles, a, b, kind),
        spread_reached(tiles, a, dims, origin, d, r),
    ensures
        spread_reached(tiles, b, dims, origin, d, r),
{
    let (dx, dy) = cardinal_step(d);
    let x = origin.x + dx * r;
    let y = origin.y + dy * r;
    if in_bounds(dims, x, y) {
        lemma_index_in_grid(dims, x, y);
        let i = tile_index(dims, x, y);
        assert(b[i] == a[i] || a[i] is None);
    }
}

/// Grass spread from `origin`, from direction `dir` and distance `r` on,
/// reading draws from `at`: each tile 1 to `range` steps away in each
/// cardinal direction, in order, gets grass with chance `num` in `den` when
/// it is a free grass tile. The result holds the objects after it, where the
/// draws end, and whether every draw answered the question asked there.
pub open spec fn spread_spec(
    tiles: Seq<TileType>,
    dims: MapDimensions,
    objs: Seq<Option<ObjectKind>>,
    origin: MapCord,
    range: int,
    num: u32,
    den: u32,
    dir: int,
    r: int,
    ds: Seq<Draw>,
    at: int,
) -> (Seq<Option<ObjectKind>>, int, bool)
    decreases 4 - dir, range + 1 - r,
{
    if dir >= 4 || dir < 0 {
        (objs, at, true)
    } else if r > range {
        spread_spec(tiles, dims, objs, origin, range, num, den, dir + 1, 1, ds, at)
    } else {
        match flip_at(ds, at, num, den) {
            None => (objs, at, false),
            Some(hit) => {
                let o2 = if hit {
                    match offset_spec(origin, dir, r) {
                        Some(t) => place_spec(tiles, dims, objs, t, ObjectKind::Grass),
                        None => objs,
                    }
                } else {
                    objs
                };
                spread_spec(tiles, dims, o2, origin, range, num, den, dir, r + 1, ds, at + 1)
            },
        }
    }
}

/// From `origin`, every tile 1 to `range` steps away in each cardinal
/// direction gets grass with chance `numerator` in `denominator` when it is
/// a free grass tile: with no chance nothing changes, and with certainty
/// every such grass tile on the map ends up holding an object. Whatever the
/// draws, objects are placed only within `range` steps of `origin`.
fn spread_grass<D: DrawSource>(
    tile_grid: &MapTileGrid,
    object_grid: &mut ObjectKindGrid,
    dims: MapDimensions,
    origin: MapCord,
    range: i32,
    numerator: u32,
    denominator: u32,
    draws: &mut D,
)
    requires
        grid_wf(tile_grid@, dims),
        old(object_grid)@.len() == tile_grid@.len(),
        0 <= range <= 1000,
        0 < denominator,
        numerator <= denominator,
    ensures
        placed_on_free_grass(tile_grid@, old(object_grid)@, final(object_grid)@, ObjectKind::Grass),
        numerator == 0 ==> final(object_grid)@ == old(object_grid)@,
        placed_near(old(object_grid)@, final(object_grid)@, dims, seq![origin], range as int),
        numerator == denominator ==> forall|d: int, r: int|
            0 <= d < 4 && 1 <= r <= range ==> #[trigger] spread_reached(
                tile_grid@,
                final(object_grid)@,
                dims,
                origin,
                d,
                r,
            ),
        starts_with(final(draws).drawn(), old(draws).drawn()),
        forall|ds: Seq<Draw>|
            #[trigger] starts_with(ds, final(draws).drawn()) ==> spread_spec(
                tile_grid@,
                dims,
                old(object_grid)@,
                origin,
                range as int,
                numerator,
                denominator,
                0,
                1,
                ds,
                old(draws).drawn().len() as int,
            ) == (final(object_grid)@, final(draws).drawn().len() as int, true),
{
    let ghost start = object_grid@;
    let ghost d0 = draws.drawn();
    let ghost tiles = tile_grid@;
    proof {
        lemma_starts_with_push(d0, Draw::Flip { numerator: 1, denominator: 2, outcome: true });
    }
    let mut dir: usize = 0;
    while dir < 4
        invariant
            numerator == 0 ==> object_grid@ == start,
            placed_near(start, object_grid@, dims, seq![origin], range as int),
            numerator == denominator ==> forall|d: int, rr: int|
                0 <= d < dir && 1 <= rr <= range ==> #[trigger] spread_reached(
                    tile_grid@,
                    object_grid@,
                    dims,
                    origin,
                    d,
                    rr,
                ),
            dir <= 4,
            tiles == tile_grid@,
            starts_with(draws.drawn(), d0),
            forall|ds: Seq<Draw>|
                #[trigger] starts_with(ds, draws.drawn()) ==> spread_spec(tiles, dims, start, origin, range as int, numerator, denominator, 0, 1, ds, d0.len() as int)
                    == spread_spec(tiles, dims, object_grid@, origin, range as int, numerator, denominator, dir as int, 1, ds, draws.drawn().len() as int),
            0 <= range <= 1000,
            0 < denominator,
            numerator <= denominator,
            grid_wf(tile_grid@, dims),
            object_grid@.len() == tile_grid@.len(),
            placed_on_free_grass(tile_grid@, start, object_grid@, ObjectKind::Grass),
        decreases 4 - dir,
    {
        let mut r: i32 = 1;
        while r <= range
            invariant
                numerator == 0 ==> object_grid@ == start,
                placed_near(start, object_grid@, dims, seq![origin], range as int),
                numerator == denominator ==> forall|d: int, rr: int|
                    ((0 <= d < dir && 1 <= rr <= range) || (d == dir && 1 <= rr < r)) ==> #[trigger] spread_reached(
                        tile_grid@,
                        object_grid@,
                        dims,
                        origin,
                        d,
                        rr,
                    ),
                dir < 4,
                1 <= r <= range + 1,
                tiles == tile_grid@,
                starts_with(draws.drawn(), d0),
                forall|ds: Seq<Draw>|
                    #[trigger] starts_with(ds, draws.drawn()) ==> spread_spec(tiles, dims, start, origin, range as int, numerator, denominator, 0, 1, ds, d0.len() as int)
                        == spread_spec(tiles, dims, object_grid@, origin, range as int, numerator, denominator, dir as int, r as int, ds, draws.drawn().len() as int),
                0 <= range <= 1000,
                0 < denominator,
                numerator <= denominator,
                grid_wf(tile_grid@, dims),
                object_grid@.len() == tile_grid@.len(),
                placed_on_free_grass(tile_grid@, start, object_grid@, ObjectKind::Grass),
            decreases range + 1 - r,
        {
            let ghost d_r = draws.drawn();
            let ghost o_r = object_grid@;
            let hit = draws.chance(numerator, denominator);
            proof {
                lemma_starts_with_push(d_r, Draw::Flip { numerator, denominator, outcome: hit });
                lemma_starts_with_trans(draws.drawn(), d_r, d0);
            }
            if hit {
                if let Some(target) = offset(origin, dir, r) {
                    let ghost before = object_grid@;
                    place_if_free_grass(tile_grid, object_grid, dims, target, ObjectKind::Grass);
                    proof {
                        lemma_placed_trans(tile_grid@, start, before, object_grid@, ObjectKind::Grass);
                        if cord_in_bounds(dims, target) {
                            lemma_index_in_grid(dims, target.x as int, target.y as int);
                            assert(seq![origin][0] == origin);
                            assert(reaches(dims, origin, dir as int, r as int, cord_index(dims, target)));
                            lemma_placed_near_step(start, before, object_grid@, dims, seq![origin], range as int, 0, dir as int, r as int, cord_index(dims, target), ObjectKind::Grass);
                        }
                        if numerator == denominator {
                            assert forall|d: int, rr: int|
                                ((0 <= d < dir && 1 <= rr <= range) || (d == dir && 1 <= rr < r + 1)) implies #[trigger] spread_reached(
                                tile_grid@,
                                object_grid@,
                                dims,
                                origin,
                                d,
                                rr,
                            ) by {
                                if d == dir && rr == r {
                                    if cord_in_bounds(dims, target) {
                                        lemma_index_in_grid(dims, target.x as int, target.y as int);
                                    }
                                } else {
                                    assert(spread_reached(tile_grid@, before, dims, origin, d, rr));
                                    lemma_reached_kept(tile_grid@, before, object_grid@, ObjectKind::Grass, dims, origin, d, rr);
                                }
                            }
                        }
                    }
                } else {
                    proof {
                        if numerator == denominator {
                            lemma_as_i16(dims.width);
                            lemma_as_i16(dims.height);
                        }
                    }
                }
            }
            proof {
                assert forall|ds: Seq<Draw>| #[trigger] starts_with(ds, draws.drawn()) implies spread_spec(tiles, dims, start, origin, range as int, numerator, denominator, 0, 1, ds, d0.len() as int)
                    == spread_spec(tiles, dims, object_grid@, origin, range as int, numerator, denominator, dir as int, r + 1, ds, draws.drawn().len() as int) by {
                    lemma_starts_with_trans(ds, draws.drawn(), d_r);
                    assert(ds[d_r.len() as int] == draws.drawn()[d_r.len() as int]);
                    assert(flip_at(ds, d_r.len() as int, numerator, denominator) == Some(hit));
                }
            }
            r = r + 1;
        }
        proof {
            assert forall|ds: Seq<Draw>| #[trigger] starts_with(ds, draws.drawn()) implies spread_spec(tiles, dims, start, origin, range as int, numerator, denominator, 0, 1, ds, d0.len() as int)
                == spread_spec(tiles, dims, object_grid@, origin, range as int, numerator, denominator, dir + 1, 1, ds, draws.drawn().len() as int) by {
            }
        }
        dir = dir + 1;
    }
    proof {
        lemma_starts_with_push(draws.drawn(), Draw::Flip { numerator: 1, denominator: 2, outcome: true });
    }
}

/// Grass along the rivers from the tile `(x, y)` on, in row-major order,
/// reading draws from `at`: each tile with a river sprite draws a reach from
/// 1 to 8 and spreads grass from it with chance 7 in 20 per tile.
pub open spec fn rivers_grass_spec(
    tiles: Seq<TileType>,
    dims: MapDimensions,
    objs: Seq<Option<ObjectKind>>,
    river_tiles: Seq<Option<RiverSpriteData>>,
    x: int,
    y: int,
    ds: Seq<Draw>,
    at: int,
) -> (Seq<Option<ObjectKind>>, int, bool)
    decreases crate::map::tile_map::as_i16(dims.height) - y, crate::map::tile_map::as_i16(dims.width) - x,
{
    if y >= crate::map::tile_map::as_i16(dims.height) || x < 0 {
        (objs, at, true)
    } else if x >= crate::map::tile_map::as_i16(dims.width) {
        rivers_grass_spec(tiles, dims, objs, river_tiles, 0, y + 1, ds, at)
    } else if river_tiles[tile_index(dims, x, y)] is Some {
        match pick_i32_at(ds, at, 1, 8) {
            None => (objs, at, false),
            Some(range) => {
                let sp = spread_spec(tiles, dims, objs, MapCord { x: x as i16, y: y as i16 }, range as int, 7, 20, 0, 1, ds, at + 1);
                if !sp.2 {
                    sp
                } else {
                    rivers_grass_spec(tiles, dims, sp.0, river_tiles, x + 1, y, ds, sp.1)
                }
            },
        }
    } else {
        rivers_grass_spec(tiles, dims, objs, river_tiles, x + 1, y, ds, at)
    }
}

/// Plants grass along rivers: from each river tile, a random reach of 1 to 8
/// tiles is drawn, and every tile 1 to that many steps away in each cardinal
/// direction gets grass with chance 7 in 20 when it is a free grass tile. So
/// every new grass object stands at most 8 steps from a river tile, straight
/// along a row or a column.
/// The outcome is what `rivers_grass_spec` gives for some list of draws; for given
/// draws, `spawn_grass_around_rivers_with` states it.
pub fn spawn_grass_around_rivers(
    tile_grid: &MapTileGrid,
    object_grid: &mut ObjectKindGrid,
    river_tiles: &RiverSpriteGrid,
    map_dimensions: MapDimensions,
    rng: &mut ThreadRng,
)
    requires
        grid_wf(tile_grid@, map_dimensions),
        old(object_grid)@.len() == tile_grid@.len(),
        river_tiles@.len() == tile_grid@.len(),
    ensures
        placed_on_free_grass(tile_grid@, old(object_grid)@, final(object_grid)@, ObjectKind::Grass),
        placed_near_rivers(old(object_grid)@, final(object_grid)@, map_dimensions, river_tiles@, 8),
        exists|ds: Seq<Draw>|
            #[trigger] rivers_grass_spec(tile_grid@, map_dimensions, old(object_grid)@, river_tiles@, 0, 0, ds, 0)
                == (final(object_grid)@, ds.len() as int, true),
{
    let mut draws = RandomDraws::new(rng);
    spawn_grass_around_rivers_with(tile_grid, object_grid, river_tiles, map_dimensions, &mut draws);
}

/// The grass of `spawn_grass_around_rivers`, with the draws taken from
/// `draws`: the objects come out as `rivers_grass_spec` gives them for the
/// draws made.
pub fn spawn_grass_around_rivers_with<D: DrawSource>(
    tile_grid: &MapTileGrid,
    object_grid: &mut ObjectKindGrid,
    river_tiles: &RiverSpriteGrid,
    map_dimensions: MapDimensions,
    draws: &mut D,
)
    requires
        grid_wf(tile_grid@, map_dimensions),
        old(object_grid)@.len() == tile_grid@.len(),
        river_tiles@.len() == tile_grid@.len(),
    ensures
        placed_on_free_grass(tile_grid@, old(object_grid)@, final(object_grid)@, ObjectKind::Grass),
        placed_near_rivers(old(object_grid)@, final(object_grid)@, map_dimensions, river_tiles@, 8),
        starts_with(final(draws).drawn(), old(draws).drawn()),
        rivers_grass_spec(tile_grid@, map_dimensions, old(object_grid)@, river_tiles@, 0, 0, final(draws).drawn(), old(draws).drawn().len() as int)
            == (final(object_grid)@, final(draws).drawn().len() as int, true),
        forall|ds: Seq<Draw>|
            #[trigger] starts_with(ds, final(draws).drawn()) ==> rivers_grass_spec(
                tile_grid@,
                map_dimensions,
                old(object_grid)@,
                river_tiles@,
                0,
                0,
                ds,
                old(draws).drawn().len() as int,
            ) == (final(object_grid)@, final(draws).drawn().len() as int, true),
{
    let dims = map_dimensions;
    let ghost start = object_grid@;
    let ghost d0 = draws.drawn();
    let ghost tiles = tile_grid@;
    proof {
        lemma_starts_with_push(d0, Draw::Flip { numerator: 1, denominator: 2, outcome: true });
    }
    proof {
        lemma_as_i16(dims.width);
        lemma_as_i16(dims.height);
    }
    let h16 = dims.height as i16;
    let w16 = dims.width as i16;
    let mut y: i16 = 0;
    while y < h16
        invariant
            h16 as int == crate::map::tile_map::as_i16(dims.height),
            w16 as int == crate::map::tile_map::as_i16(dims.width),
            0 <= y,
            grid_wf(tile_grid@, dims),
            river_tiles@.len() == tile_grid@.len(),
            object_grid@.len() == tile_grid@.len(),
            placed_on_free_grass(tile_grid@, start, object_grid@, ObjectKind::Grass),
            placed_near_rivers(start, object_grid@, dims, river_tiles@, 8),
            tiles == tile_grid@,
            starts_with(draws.drawn(), d0),
            forall|ds: Seq<Draw>|
                #[trigger] starts_with(ds, draws.drawn()) ==> rivers_grass_spec(tiles, dims, start, river_tiles@, 0, 0, ds, d0.len() as int)
                    == rivers_grass_spec(tiles, dims, object_grid@, river_tiles@, 0, y as int, ds, draws.drawn().len() as int),
        decreases h16 - y,
    {
        let mut x: i16 = 0;
        while x < w16
            invariant
                h16 as int == crate::map::tile_map::as_i16(dims.height),
                w16 as int == crate::map::tile_map::as_i16(dims.width),
                0 <= y < h16,
                0 <= x,
                grid_wf(tile_grid@, dims),
                river_tiles@.len() == tile_grid@.len(),
                object_grid@.len() == tile_grid@.len(),
                placed_on_free_grass(tile_grid@, start, object_grid@, ObjectKind::Grass),
                placed_near_rivers(start, object_grid@, dims, river_tiles@, 8),
                tiles == tile_grid@,
                starts_with(draws.drawn(), d0),
                forall|ds: Seq<Draw>|
                    #[trigger] starts_with(ds, draws.drawn()) ==> rivers_grass_spec(tiles, dims, start, river_tiles@, 0, 0, ds, d0.len() as int)
                        == rivers_grass_spec(tiles, dims, object_grid@, river_tiles@, x as int, y as int, ds, draws.drawn().len() as int),
            decreases w16 - x,
        {
            let cord = MapCord::new(x, y);
            proof {
                lemma_index_in_grid(dims, x as int, y as int);
            }
            let idx = cords_to_index(dims, cord);
            if river_tiles[idx].is_some() {
                let ghost d_x = draws.drawn();
                let range = draws.pick_i32(1, 8);
                let ghost d_1 = draws.drawn();
                let ghost before = object_grid@;
                spread_grass(tile_grid, object_grid, dims, cord, range, 7, 20, draws);
                proof {
                    lemma_placed_trans(tile_grid@, start, before, object_grid@, ObjectKind::Grass);
                    lemma_placed_near_river_join(start, before, object_grid@, dims, river_tiles@, 8, cord, range as int);
                    lemma_starts_with_push(d_x, Draw::PickI32 { lo: 1, hi: 8, value: range });
                    lemma_starts_with_trans(draws.drawn(), d_1, d_x);
                    lemma_starts_with_trans(draws.drawn(), d_x, d0);
                    assert(cord == MapCord { x: x as i16, y: y as i16 });
                    assert forall|ds: Seq<Draw>| #[trigger] starts_with(ds, draws.drawn()) implies rivers_grass_spec(tiles, dims, start, river_tiles@, 0, 0, ds, d0.len() as int)
                        == rivers_grass_spec(tiles, dims, object_grid@, river_tiles@, x + 1, y as int, ds, draws.drawn().len() as int) by {
                        lemma_starts_with_trans(ds, draws.drawn(), d_1);
                        lemma_starts_with_trans(ds, d_1, d_x);
                        assert(ds[d_x.len() as int] == d_1[d_x.len() as int]);
                        assert(pick_i32_at(ds, d_x.len() as int, 1, 8) == Some(range));
                    }
                }
            } else {
                proof {
                    assert forall|ds: Seq<Draw>| #[trigger] starts_with(ds, draws.drawn()) implies rivers_grass_spec(tiles, dims, start, river_tiles@, 0, 0, ds, d0.len() as int)
                        == rivers_grass_spec(tiles, dims, object_grid@, river_tiles@, x + 1, y as int, ds, draws.drawn().len() as int) by {
                    }
                }
            }
            x = x + 1;
        }
        proof {
            assert forall|ds: Seq<Draw>| #[trigger] starts_with(ds, draws.drawn()) implies rivers_grass_spec(tiles, dims, start, river_tiles@, 0, 0, ds, d0.len() as int)
                == rivers_grass_spec(tiles, dims, object_grid@, river_tiles@, 0, y + 1, ds, draws.drawn().len() as int) by {
            }
        }
        y = y + 1;
    }
    proof {
        lemma_starts_with_push(draws.drawn(), Draw::Flip { numerator: 1, denominator: 2, outcome: true });
    }
}


/// How many more steps in direction number `i` keep the point `c` inside
/// the `i16` range.
pub open spec fn room(c: MapCord, i: int) -> int {
    if i == 0 {
        c.y + 32768
    } else if i == 1 {
        32767 - c.x
    } else if i == 2 {
        32767 - c.y
    } else {
        c.x + 32768
    }
}

/// The tile with index `w` is on the map and, when it was a free grass tile
/// in `old`, holds a tree in `new`.
pub open spec fn tree_at_if_free(
    tiles: Seq<TileType>,
    old: Seq<Option<ObjectKind>>,
    new: Seq<Option<ObjectKind>>,
    dims: MapDimensions,
    w: int,
) -> bool {
    &&& 0 <= w < total(dims)
    &&& tiles[w] == TileType::Grass && old[w] is None ==> new[w] == Some(ObjectKind::Tree)
}

/// The point `r` steps from `c` in cardinal direction `i`, when both of its
/// coordinates fit in `i16`.
pub open spec fn offset_spec(c: MapCord, i: int, r: int) -> Option<MapCord> {
    let (dx, dy) = cardinal_step(i);
    let x = c.x + dx * r;
    let y = c.y + dy * r;
    if i16::MIN <= x <= i16::MAX && i16::MIN <= y <= i16::MAX {
        Some(MapCord { x: x as i16, y: y as i16 })
    } else {
        None
    }
}

/// `ds` begins with the draws `pre`.
pub open spec fn starts_with(ds: Seq<Draw>, pre: Seq<Draw>) -> bool {
    &&& pre.len() <= ds.len()
    &&& forall|k: int| 0 <= k < pre.len() ==> ds[k] == pre[k]
}

/// `objs` with an object of kind `kind` put at `c` when `c` is a free grass
/// tile of the map.
pub open spec fn place_spec(
    tiles: Seq<TileType>,
    dims: MapDimensions,
    objs: Seq<Option<ObjectKind>>,
    c: MapCord,
    kind: ObjectKind,
) -> Seq<Option<ObjectKind>> {
    if cord_in_bounds(dims, c) && tiles[cord_index(dims, c)] == TileType::Grass && objs[cord_index(dims, c)] is None {
        objs.update(cord_index(dims, c), Some(kind))
    } else {
        objs
    }
}

/// `objs` after trees are tried on the tiles `j` to `height - 1` steps from
/// `pos` in direction `d1`.
pub open spec fn column_spec(
    tiles: Seq<TileType>,
    dims: MapDimensions,
    objs: Seq<Option<ObjectKind>>,
    pos: MapCord,
    d1: int,
    j: int,
    height: int,
) -> Seq<Option<ObjectKind>>
    decreases height - j,
{
    if j >= height {
        objs
    } else {
        let o2 = match offset_spec(pos, d1, j) {
            Some(t) => place_spec(tiles, dims, objs, t, ObjectKind::Tree),
            None => objs,
        };
        column_spec(tiles, dims, o2, pos, d1, j + 1, height)
    }
}

/// The height of the next column after the two height draws at `at`, for a
/// forest of `length` columns: early on it grows with chance 1 in 5 and
/// shrinks with chance 1 in 20, from column 12 on it does either with chance
/// 4 in 5, and from column 25 on it shrinks with chance 1 in 5 and then grows
/// with chance 1 in 20.
pub open spec fn next_height(length: int, height: int, ds: Seq<Draw>, at: int) -> Option<int> {
    if length <= 11 {
        match (flip_at(ds, at, 1, 5), flip_at(ds, at + 1, 1, 20)) {
            (Some(up), Some(down)) => Some(height + (if up { 1int } else { 0 }) - (if down { 1int } else { 0 })),
            _ => None,
        }
    } else if length < 25 {
        match (flip_at(ds, at, 4, 5), flip_at(ds, at + 1, 4, 5)) {
            (Some(up), Some(down)) => Some(height + (if up { 1int } else { 0 }) - (if down { 1int } else { 0 })),
            _ => None,
        }
    } else {
        match (flip_at(ds, at, 1, 5), flip_at(ds, at + 1, 1, 20)) {
            (Some(down), Some(up)) => Some(height - (if down { 1int } else { 0 }) + (if up { 1int } else { 0 })),
            _ => None,
        }
    }
}

/// The columns of a forest from the column at `pos` of the given height on,
/// reading draws from `at`: the objects after them, where the draws end, and
/// whether every draw answered the question asked there.
pub open spec fn columns_spec(
    tiles: Seq<TileType>,
    dims: MapDimensions,
    objs: Seq<Option<ObjectKind>>,
    pos: MapCord,
    d1: int,
    d2: int,
    height: int,
    length: int,
    ds: Seq<Draw>,
    at: int,
) -> (Seq<Option<ObjectKind>>, int, bool)
    decreases room(pos, d2),
{
    if !(0 <= d1 < 4 && 0 <= d2 < 4 && d1 % 2 != d2 % 2 && room(pos, d2) >= 0) {
        (objs, at, false)
    } else if height <= 0 {
        (objs, at, true)
    } else {
        let o1 = column_spec(tiles, dims, objs, pos, d1, 0, height);
        match offset_spec(pos, d2, 1) {
            None => (o1, at, true),
            Some(next) => match flip_at(ds, at, 1, 2) {
                None => (o1, at, false),
                Some(drift) => if drift {
                    match flip_at(ds, at + 1, 1, 5) {
                        None => (o1, at, false),
                        Some(back) => match (if back { offset_spec(next, (d1 + 2) % 4, 1) } else { offset_spec(next, d1, 1) }) {
                            None => (o1, at + 2, true),
                            Some(p2) => match next_height(length + 1, height, ds, at + 2) {
                                None => (o1, at, false),
                                Some(h2) => columns_spec(tiles, dims, o1, p2, d1, d2, h2, length + 1, ds, at + 4),
                            },
                        },
                    }
                } else {
                    match next_height(length + 1, height, ds, at + 1) {
                        None => (o1, at, false),
                        Some(h2) => columns_spec(tiles, dims, o1, next, d1, d2, h2, length + 1, ds, at + 3),
                    }
                },
            },
        }
    }
}

/// One forest, reading draws from `at`: whether the line runs west or east,
/// north or south, which of the two runs along the columns, and the start
/// tile; then its columns.
pub open spec fn forest_spec(
    tiles: Seq<TileType>,
    dims: MapDimensions,
    objs: Seq<Option<ObjectKind>>,
    ds: Seq<Draw>,
    at: int,
) -> (Seq<Option<ObjectKind>>, int, bool) {
    match (
        flip_at(ds, at, 1, 2),
        flip_at(ds, at + 1, 1, 2),
        flip_at(ds, at + 2, 1, 2),
        pick_usize_at(ds, at + 3, 0, (dims.width - 1) as usize),
        pick_usize_at(ds, at + 4, 0, (dims.height - 1) as usize),
    ) {
        (Some(west), Some(north), Some(upright), Some(kx), Some(ky)) => {
            let horizontal: int = if west { 3 } else { 1 };
            let vertical: int = if north { 0 } else { 2 };
            let d1 = if upright { vertical } else { horizontal };
            let d2 = if upright { horizontal } else { vertical };
            columns_spec(tiles, dims, objs, MapCord { x: kx as i16, y: ky as i16 }, d1, d2, 1, 0, ds, at + 5)
        },
        _ => (objs, at, false),
    }
}

/// `n` forests one after the other, reading draws from `at`.
pub open spec fn forests_spec(
    tiles: Seq<TileType>,
    dims: MapDimensions,
    objs: Seq<Option<ObjectKind>>,
    n: int,
    ds: Seq<Draw>,
    at: int,
) -> (Seq<Option<ObjectKind>>, int, bool)
    decreases n,
{
    if n <= 0 {
        (objs, at, true)
    } else {
        let r = forest_spec(tiles, dims, objs, ds, at);
        if !r.2 {
            r
        } else {
            forests_spec(tiles, dims, r.0, n - 1, ds, r.1)
        }
    }
}

/// What is left of the forests once the columns of the current one give
/// `r`: the `n` forests after it.
pub open spec fn after_columns(
    tiles: Seq<TileType>,
    dims: MapDimensions,
    r: (Seq<Option<ObjectKind>>, int, bool),
    n: int,
    ds: Seq<Draw>,
) -> (Seq<Option<ObjectKind>>, int, bool) {
    if !r.2 {
        r
    } else {
        forests_spec(tiles, dims, r.0, n, ds, r.1)
    }
}

/// Standalone forests for the draws `ds`: how many forests (one more than a
/// number picked from `total / 10000` to `total / 5000`), then each forest.
/// The result holds the objects after them, where the draws end, and whether
/// every draw answered the question asked there.
pub open spec fn standalone_forests(
    tiles: Seq<TileType>,
    dims: MapDimensions,
    objs: Seq<Option<ObjectKind>>,
    ds: Seq<Draw>,
) -> (Seq<Option<ObjectKind>>, int, bool) {
    let total = dims.width * dims.height;
    match pick_usize_at(ds, 0, (total / 10_000) as usize, (total / 5_000) as usize) {
        Some(c) => forests_spec(tiles, dims, objs, c + 1, ds, 1),
        None => (objs, 0, false),
    }
}

/// A list that begins with `p` begins with every prefix of `p`.
proof fn lemma_starts_with_take(ds: Seq<Draw>, p: Seq<Draw>, k: int)
    requires
        starts_with(ds, p),
        0 <= k <= p.len(),
    ensures
        starts_with(ds, p.take(k)),
{
    assert forall|i: int| 0 <= i < p.take(k).len() implies ds[i] == p.take(k)[i] by {
        assert(ds[i] == p[i]);
    }
}

/// A forest's columns end after a column whose next start would leave the
/// `i16` range.
proof fn lemma_columns_edge(
    tiles: Seq<TileType>,
    dims: MapDimensions,
    objs: Seq<Option<ObjectKind>>,
    pos: MapCord,
    d1: int,
    d2: int,
    height: int,
    length: int,
    ds: Seq<Draw>,
    at: int,
)
    requires
        0 <= d1 < 4,
        0 <= d2 < 4,
        d1 % 2 != d2 % 2,
        room(pos, d2) >= 0,
        height > 0,
        offset_spec(pos, d2, 1) is None,
    ensures
        columns_spec(tiles, dims, objs, pos, d1, d2, height, length, ds, at) == (column_spec(tiles, dims, objs, pos, d1, 0, height), at, true),
{
}

/// A forest's columns end after a column whose drift would leave the `i16`
/// range.
proof fn lemma_columns_drift_edge(
    tiles: Seq<TileType>,
    dims: MapDimensions,
    objs: Seq<Option<ObjectKind>>,
    pos: MapCord,
    d1: int,
    d2: int,
    height: int,
    length: int,
    ds: Seq<Draw>,
    at: int,
    next: MapCord,
    back: bool,
)
    requires
        0 <= d1 < 4,
        0 <= d2 < 4,
        d1 % 2 != d2 % 2,
        room(pos, d2) >= 0,
        height > 0,
        offset_spec(pos, d2, 1) == Some(next),
        flip_at(ds, at, 1, 2) == Some(true),
        flip_at(ds, at + 1, 1, 5) == Some(back),
        (if back { offset_spec(next, (d1 + 2) % 4, 1) } else { offset_spec(next, d1, 1) }) is None,
    ensures
        columns_spec(tiles, dims, objs, pos, d1, d2, height, length, ds, at) == (column_spec(tiles, dims, objs, pos, d1, 0, height), at + 2, true),
{
}

/// After one column, a forest goes on from the next column's start with the
/// next height.
proof fn lemma_columns_step(
    tiles: Seq<TileType>,
    dims: MapDimensions,
    objs: Seq<Option<ObjectKind>>,
    pos: MapCord,
    d1: int,
    d2: int,
    height: int,
    length: int,
    ds: Seq<Draw>,
    at: int,
    next: MapCord,
    drift: bool,
    back: bool,
    pn: MapCord,
    h2: int,
)
    requires
        0 <= d1 < 4,
        0 <= d2 < 4,
        d1 % 2 != d2 % 2,
        room(pos, d2) >= 0,
        height > 0,
        offset_spec(pos, d2, 1) == Some(next),
        flip_at(ds, at, 1, 2) == Some(drift),
        drift ==> flip_at(ds, at + 1, 1, 5) == Some(back),
        drift ==> (if back { offset_spec(next, (d1 + 2) % 4, 1) } else { offset_spec(next, d1, 1) }) == Some(pn),
        !drift ==> pn == next,
        next_height(length + 1, height, ds, if drift { at + 2 } else { at + 1 }) == Some(h2),
    ensures
        columns_spec(tiles, dims, objs, pos, d1, d2, height, length, ds, at) == columns_spec(
            tiles,
            dims,
            column_spec(tiles, dims, objs, pos, d1, 0, height),
            pn,
            d1,
            d2,
            h2,
            length + 1,
            ds,
            if drift { at + 4 } else { at + 3 },
        ),
{
}

/// Grows a few random forests: between `total / 10000` and `total / 5000`
/// (plus one) of them. A forest starts at a random tile and grows as a run
/// of columns: each column is a line of trees of the current height along
/// one direction, the next column starts one tile further along the other
/// direction (drifting sideways now and then), and the height changes at
/// random, growing early on, fluctuating from column 12 on and shrinking from
/// column 25 on, until it reaches zero. Trees go only on free grass tiles. A
/// forest also ends where its coordinates would leave the `i16` range.
///
/// At least one forest is grown, and when both sides fit in `i16` its start
/// tile is on the map and gets a tree if it is free grass.
/// The outcome is what `standalone_forests` gives for some list of draws; for given
/// draws, `grow_forests` states it.
pub fn spawn_standalone_forests(
    tile_grid: &MapTileGrid,
    object_grid: &mut ObjectKindGrid,
    map_dimensions: MapDimensions,
    rng: &mut ThreadRng,
)
    requires
        grid_wf(tile_grid@, map_dimensions),
        old(object_grid)@.len() == tile_grid@.len(),
        map_dimensions.width > 0,
        map_dimensions.height > 0,
    ensures
        placed_on_free_grass(tile_grid@, old(object_grid)@, final(object_grid)@, ObjectKind::Tree),
        map_dimensions.width <= 32767 && map_dimensions.height <= 32767 ==> exists|w: int|
            tree_at_if_free(tile_grid@, old(object_grid)@, final(object_grid)@, map_dimensions, w),
        exists|ds: Seq<Draw>|
            #[trigger] standalone_forests(tile_grid@, map_dimensions, old(object_grid)@, ds)
                == (final(object_grid)@, ds.len() as int, true),
{
    let mut draws = RandomDraws::new(rng);
    grow_forests(tile_grid, object_grid, map_dimensions, &mut draws);
    proof {
        assert(draws.drawn().skip(0) =~= draws.drawn());
    }
}

/// The forests of `spawn_standalone_forests`, with the draws taken from
/// `draws`: the objects come out as `standalone_forests` gives them for the
/// draws made.
#[verifier::rlimit(100)]
pub fn grow_forests<D: DrawSource>(
    tile_grid: &MapTileGrid,
    object_grid: &mut ObjectKindGrid,
    map_dimensions: MapDimensions,
    draws: &mut D,
)
    requires
        grid_wf(tile_grid@, map_dimensions),
        old(object_grid)@.len() == tile_grid@.len(),
        map_dimensions.width > 0,
        map_dimensions.height > 0,
    ensures
        placed_on_free_grass(tile_grid@, old(object_grid)@, final(object_grid)@, ObjectKind::Tree),
        map_dimensions.width <= 32767 && map_dimensions.height <= 32767 ==> exists|w: int|
            tree_at_if_free(tile_grid@, old(object_grid)@, final(object_grid)@, map_dimensions, w),
        final(draws).drawn().len() >= old(draws).drawn().len(),
        final(draws).drawn().take(old(draws).drawn().len() as int) == old(draws).drawn(),
        standalone_forests(
            tile_grid@,
            map_dimensions,
            old(object_grid)@,
            final(draws).drawn().skip(old(draws).drawn().len() as int),
        ) == (final(object_grid)@, final(draws).drawn().len() - old(draws).drawn().len(), true),
        forall|ds: Seq<Draw>|
            #[trigger] starts_with(ds, final(draws).drawn().skip(old(draws).drawn().len() as int)) ==> standalone_forests(
                tile_grid@,
                map_dimensions,
                old(object_grid)@,
                ds,
            ) == (final(object_grid)@, final(draws).drawn().len() - old(draws).drawn().len(), true),
{
    let dims = map_dimensions;
    let ghost start = object_grid@;
    let ghost tiles = tile_grid@;
    let ghost d0 = draws.drawn();
    let ghost mut pre: Seq<Draw> = Seq::empty();
    let ghost fits = dims.width <= 32767 && dims.height <= 32767;
    let ghost mut planted = false;
    let ghost mut witness: int = 0;
    let total_tiles = dims.total_tiles();
    let cycles = draws.pick_usize(total_tiles / 10_000, total_tiles / 5_000);
    proof {
        pre = pre.push(Draw::PickUsize { lo: total_tiles / 10_000, hi: total_tiles / 5_000, value: cycles });
        assert(draws.drawn() =~= d0 + pre);
        assert forall|ds: Seq<Draw>| #[trigger] starts_with(ds, pre) implies standalone_forests(tiles, dims, start, ds)
            == forests_spec(tiles, dims, start, cycles + 1, ds, 1) by {
            assert(ds[0] == pre[0]);
        }
    }
    let mut cycle: usize = 0;
    while cycle <= cycles
        invariant
            fits == (dims.width <= 32767 && dims.height <= 32767),
            planted ==> tree_at_if_free(tile_grid@, start, object_grid@, dims, witness),
            fits && cycle > 0 ==> planted,
            cycles <= total_tiles / 5_000,
            cycle <= cycles + 1,
            dims.width > 0,
            dims.height > 0,
            tiles == tile_grid@,
            grid_wf(tile_grid@, dims),
            object_grid@.len() == tile_grid@.len(),
            placed_on_free_grass(tile_grid@, start, object_grid@, ObjectKind::Tree),
            draws.drawn() == d0 + pre,
            forall|ds: Seq<Draw>| #[trigger] starts_with(ds, pre) ==> standalone_forests(tiles, dims, start, ds)
                == forests_spec(tiles, dims, object_grid@, cycles + 1 - cycle, ds, pre.len() as int),
        decreases cycles + 1 - cycle,
    {
        let ghost forest_objs = object_grid@;
        let ghost pre0 = pre;
        let ghost at0 = pre.len() as int;
        let west = draws.chance(1, 2);
        let north = draws.chance(1, 2);
        let upright = draws.chance(1, 2);
        let horizontal_dir: usize = if west { 3 } else { 1 };
        let vertical_dir: usize = if north { 0 } else { 2 };
        let (dir_1, dir_2) = if upright {
            (vertical_dir, horizontal_dir)
        } else {
            (horizontal_dir, vertical_dir)
        };
        let kx = draws.pick_usize(0, dims.width as usize - 1);
        let ky = draws.pick_usize(0, dims.height as usize - 1);
        let sx = #[verifier::truncate] (kx as i16);
        let sy = #[verifier::truncate] (ky as i16);
        proof {
            lemma_as_i16(dims.width);
            lemma_as_i16(dims.height);
            if fits {
                assert((kx as i16) as int == kx as int) by (bit_vector)
                    requires
                        kx < 32767,
                ;
                assert((ky as i16) as int == ky as int) by (bit_vector)
                    requires
                        ky < 32767,
                ;
            }
            pre = pre.push(Draw::Flip { numerator: 1, denominator: 2, outcome: west }).push(
                Draw::Flip { numerator: 1, denominator: 2, outcome: north },
            ).push(Draw::Flip { numerator: 1, denominator: 2, outcome: upright }).push(
                Draw::PickUsize { lo: 0, hi: (dims.width - 1) as usize, value: kx },
            ).push(Draw::PickUsize { lo: 0, hi: (dims.height - 1) as usize, value: ky });
            assert(draws.drawn() =~= d0 + pre);
        }
        let mut start_pos = MapCord::new(sx, sy);
        let mut height: i32 = 1;
        let mut length: i32 = 0;
        proof {
            assert forall|ds: Seq<Draw>| #[trigger] starts_with(ds, pre) implies standalone_forests(tiles, dims, start, ds)
                == after_columns(
                tiles,
                dims,
                columns_spec(tiles, dims, object_grid@, start_pos, dir_1 as int, dir_2 as int, height as int, length as int, ds, pre.len() as int),
                cycles - cycle,
                ds,
            ) by {
                assert(pre.take(at0) =~= pre0);
                lemma_starts_with_take(ds, pre, at0);
                assert(starts_with(ds, pre0));
                assert(ds[at0] == pre[at0] && ds[at0 + 1] == pre[at0 + 1] && ds[at0 + 2] == pre[at0 + 2]);
                assert(ds[at0 + 3] == pre[at0 + 3] && ds[at0 + 4] == pre[at0 + 4]);
                assert(start_pos == MapCord { x: kx as i16, y: ky as i16 });
                let horizontal: int = if west { 3 } else { 1 };
                let vertical: int = if north { 0 } else { 2 };
                assert(forest_spec(tiles, dims, forest_objs, ds, at0) == columns_spec(
                    tiles,
                    dims,
                    forest_objs,
                    start_pos,
                    dir_1 as int,
                    dir_2 as int,
                    1,
                    0,
                    ds,
                    at0 + 5,
                ));
            }
        }
        while height > 0
            invariant_except_break
                forall|ds: Seq<Draw>| #[trigger] starts_with(ds, pre) ==> standalone_forests(tiles, dims, start, ds)
                    == after_columns(
                    tiles,
                    dims,
                    columns_spec(tiles, dims, object_grid@, start_pos, dir_1 as int, dir_2 as int, height as int, length as int, ds, pre.len() as int),
                    cycles - cycle,
                    ds,
                ),
            invariant
                dir_1 < 4,
                dir_2 < 4,
                dir_1 % 2 != dir_2 % 2,
                0 <= length,
                height <= length + 1,
                length + room(start_pos, dir_2 as int) <= 65536,
                0 <= room(start_pos, dir_2 as int),
                tiles == tile_grid@,
                grid_wf(tile_grid@, dims),
                object_grid@.len() == tile_grid@.len(),
                placed_on_free_grass(tile_grid@, start, object_grid@, ObjectKind::Tree),
                fits == (dims.width <= 32767 && dims.height <= 32767),
                planted ==> tree_at_if_free(tile_grid@, start, object_grid@, dims, witness),
                fits ==> planted || (cord_in_bounds(dims, start_pos) && height >= 1),
                draws.drawn() == d0 + pre,
                cycle <= cycles,
            ensures
                planted ==> tree_at_if_free(tile_grid@, start, object_grid@, dims, witness),
                fits ==> planted,
                placed_on_free_grass(tile_grid@, start, object_grid@, ObjectKind::Tree),
                object_grid@.len() == tile_grid@.len(),
                draws.drawn() == d0 + pre,
                forall|ds: Seq<Draw>| #[trigger] starts_with(ds, pre) ==> standalone_forests(tiles, dims, start, ds)
                    == forests_spec(tiles, dims, object_grid@, cycles - cycle, ds, pre.len() as int),
            decreases room(start_pos, dir_2 as int),
        {
            let ghost col_objs = object_grid@;
            let ghost pre_h = pre;
            let mut j: i32 = 0;
            while j < height
                invariant
                    dir_1 < 4,
                    0 <= j <= height,
                    height <= 65537,
                    grid_wf(tile_grid@, dims),
                    object_grid@.len() == tile_grid@.len(),
                    placed_on_free_grass(tile_grid@, start, object_grid@, ObjectKind::Tree),
                    planted ==> tree_at_if_free(tile_grid@, start, object_grid@, dims, witness),
                    fits ==> planted || (cord_in_bounds(dims, start_pos) && j == 0),
                    column_spec(tiles, dims, col_objs, start_pos, dir_1 as int, 0, height as int) == column_spec(
                        tiles,
                        dims,
                        object_grid@,
                        start_pos,
                        dir_1 as int,
                        j as int,
                        height as int,
                    ),
                    tiles == tile_grid@,
                decreases height - j,
            {
                proof {
                    if j == 0 {
                        let (dx, dy) = cardinal_step(dir_1 as int);
                        assert(dx * j == 0 && dy * j == 0) by (nonlinear_arith)
                            requires
                                j == 0,
                        ;
                    }
                }
                let ghost before_j = object_grid@;
                if let Some(try_tree_tile) = offset(start_pos, dir_1, j) {
                    let ghost before = object_grid@;
                    place_if_free_grass(tile_grid, object_grid, dims, try_tree_tile, ObjectKind::Tree);
                    proof {
                        lemma_placed_trans(tile_grid@, start, before, object_grid@, ObjectKind::Tree);
                        if planted {
                            assert(object_grid@[witness] == before[witness] || before[witness] is None);
                        } else if fits {
                            lemma_index_in_grid(dims, start_pos.x as int, start_pos.y as int);
                            witness = cord_index(dims, start_pos);
                            planted = true;
                            assert(before[witness] == start[witness] || before[witness] == Some(ObjectKind::Tree));
                        }
                    }
                }
                proof {
                    assert(column_spec(tiles, dims, before_j, start_pos, dir_1 as int, j as int, height as int)
                        == column_spec(tiles, dims, object_grid@, start_pos, dir_1 as int, j + 1, height as int));
                }
                j = j + 1;
            }
            let ghost at1 = pre.len() as int;
            let ghost h0 = height as int;
            let ghost l0 = length as int;
            let ghost pos0 = start_pos;
            proof {
                assert(object_grid@ == column_spec(tiles, dims, col_objs, start_pos, dir_1 as int, 0, height as int));
            }
            match offset(start_pos, dir_2, 1) {
                Some(next) => {
                    start_pos = next;
                },
                None => {
                    proof {
                        assert forall|ds: Seq<Draw>| #[trigger] starts_with(ds, pre) implies standalone_forests(tiles, dims, start, ds)
                            == forests_spec(tiles, dims, object_grid@, cycles - cycle, ds, pre.len() as int) by {
                            lemma_columns_edge(tiles, dims, col_objs, pos0, dir_1 as int, dir_2 as int, h0, l0, ds, at1);
                        }
                    }
                    break;
                },
            }
            let ghost next0 = start_pos;
            let drift = draws.chance(1, 2);
            proof {
                pre = pre.push(Draw::Flip { numerator: 1, denominator: 2, outcome: drift });
                assert(draws.drawn() =~= d0 + pre);
            }
            let mut back = false;
            if drift {
                back = draws.chance(1, 5);
                proof {
                    pre = pre.push(Draw::Flip { numerator: 1, denominator: 5, outcome: back });
                    assert(draws.drawn() =~= d0 + pre);
                }
                let sideways = if back {
                    offset(start_pos, (dir_1 + 2) % 4, 1)
                } else {
                    offset(start_pos, dir_1, 1)
                };
                match sideways {
                    Some(next) => {
                        start_pos = next;
                    },
                    None => {
                        proof {
                            assert forall|ds: Seq<Draw>| #[trigger] starts_with(ds, pre) implies standalone_forests(tiles, dims, start, ds)
                                == forests_spec(tiles, dims, object_grid@, cycles - cycle, ds, pre.len() as int) by {
                                assert(ds[at1] == pre[at1] && ds[at1 + 1] == pre[at1 + 1]);
                                assert(pre.take(at1) =~= pre_h);
                                lemma_starts_with_take(ds, pre, at1);
                                lemma_columns_drift_edge(tiles, dims, col_objs, pos0, dir_1 as int, dir_2 as int, h0, l0, ds, at1, next0, back);
                            }
                        }
                        break;
                    },
                }
            }
            let ghost at2 = pre.len() as int;
            length = length + 1;
            let first: bool;
            let second: bool;
            if length <= 11 {
                first = draws.chance(1, 5);
                second = draws.chance(1, 20);
                proof {
                    pre = pre.push(Draw::Flip { numerator: 1, denominator: 5, outcome: first }).push(
                        Draw::Flip { numerator: 1, denominator: 20, outcome: second },
                    );
                }
                if first {
                    height = height + 1;
                }
                if second {
                    height = height - 1;
                }
            } else if length < 25 {
                first = draws.chance(4, 5);
                second = draws.chance(4, 5);
                proof {
                    pre = pre.push(Draw::Flip { numerator: 4, denominator: 5, outcome: first }).push(
                        Draw::Flip { numerator: 4, denominator: 5, outcome: second },
                    );
                }
                if first {
                    height = height + 1;
                }
                if second {
                    height = height - 1;
                }
            } else {
                first = draws.chance(1, 5);
                second = draws.chance(1, 20);
                proof {
                    pre = pre.push(Draw::Flip { numerator: 1, denominator: 5, outcome: first }).push(
                        Draw::Flip { numerator: 1, denominator: 20, outcome: second },
                    );
                }
                if first {
                    height = height - 1;
                }
                if second {
                    height = height + 1;
                }
            }
            proof {
                assert(draws.drawn() =~= d0 + pre);
                assert(next_height(length as int, h0, pre, at2) == Some(height as int));
                assert forall|ds: Seq<Draw>| #[trigger] starts_with(ds, pre) implies standalone_forests(tiles, dims, start, ds)
                    == after_columns(
                    tiles,
                    dims,
                    columns_spec(tiles, dims, object_grid@, start_pos, dir_1 as int, dir_2 as int, height as int, length as int, ds, pre.len() as int),
                    cycles - cycle,
                    ds,
                ) by {
                    assert(pre.take(at1) =~= pre_h);
                    lemma_starts_with_take(ds, pre, at1);
                    assert(ds[at1] == pre[at1]);
                    if drift {
                        assert(ds[at1 + 1] == pre[at1 + 1]);
                    }
                    assert(ds[at2] == pre[at2] && ds[at2 + 1] == pre[at2 + 1]);
                    assert(next_height(length as int, h0, ds, at2) == Some(height as int));
                    lemma_columns_step(tiles, dims, col_objs, pos0, dir_1 as int, dir_2 as int, h0, l0, ds, at1, next0, drift, back, start_pos, height as int);
                }
            }
        }
        proof {
            assert forall|ds: Seq<Draw>| #[trigger] starts_with(ds, pre) implies standalone_forests(tiles, dims, start, ds)
                == forests_spec(tiles, dims, object_grid@, cycles + 1 - (cycle + 1), ds, pre.len() as int) by {
            }
        }
        cycle = cycle + 1;
    }
    proof {
        if fits {
            assert(tree_at_if_free(tile_grid@, start, object_grid@, dims, witness));
        }
        assert(draws.drawn().take(d0.len() as int) =~= d0);
        assert(draws.drawn().skip(d0.len() as int) =~= pre);
        assert(starts_with(pre, pre));
    }
}

/// How many indices below `n` satisfy `p`.
pub open spec fn count_below(p: spec_fn(int) -> bool, n: int) -> nat
    decreases n,
{
    if n <= 0 {
        0
    } else {
        count_below(p, n - 1) + if p(n - 1) {
            1nat
        } else {
            0nat
        }
    }
}

/// The number of grass tiles without an object.
pub open spec fn free_grass_count(tiles: Seq<TileType>, objs: Seq<Option<ObjectKind>>) -> nat {
    count_below(|i: int| tiles[i] == TileType::Grass && objs[i] is None, tiles.len() as int)
}

/// The number of tiles that had no object in `old` and have one in `new`.
pub open spec fn placed_count(old: Seq<Option<ObjectKind>>, new: Seq<Option<ObjectKind>>) -> nat {
    count_below(|i: int| old[i] is None && new[i] is Some, old.len() as int)
}

/// Two predicates that agree below `n` except at `j`, where only the first
/// holds, count one apart.
proof fn lemma_count_flip(p: spec_fn(int) -> bool, q: spec_fn(int) -> bool, n: int, j: int)
    requires
        0 <= j < n,
        p(j),
        !q(j),
        forall|i: int| 0 <= i < n && i != j ==> #[trigger] p(i) == q(i),
    ensures
        count_below(p, n) == count_below(q, n) + 1,
    decreases n,
{
    if n - 1 != j {
        lemma_count_flip(p, q, n - 1, j);
    } else {
        lemma_count_same(p, q, n - 1);
    }
}

/// Predicates that agree below `n` count alike.
proof fn lemma_count_same(p: spec_fn(int) -> bool, q: spec_fn(int) -> bool, n: int)
    requires
        forall|i: int| 0 <= i < n ==> #[trigger] p(i) == q(i),
    ensures
        count_below(p, n) == count_below(q, n),
    decreases n,
{
    if n > 0 {
        lemma_count_same(p, q, n - 1);
    }
}

/// A predicate that holds nowhere below `n` counts 0.
proof fn lemma_count_none(p: spec_fn(int) -> bool, n: int)
    requires
        forall|i: int| 0 <= i < n ==> !#[trigger] p(i),
    ensures
        count_below(p, n) == 0,
    decreases n,
{
    if n > 0 {
        lemma_count_none(p, n - 1);
    }
}

/// The free grass tiles below `i`, in increasing order.
pub open spec fn free_grass_list(tiles: Seq<TileType>, objs: Seq<Option<ObjectKind>>, i: int) -> Seq<usize>
    decreases i,
{
    if i <= 0 {
        Seq::empty()
    } else {
        let p = free_grass_list(tiles, objs, i - 1);
        if tiles[i - 1] == TileType::Grass && objs[i - 1] is None {
            p.push((i - 1) as usize)
        } else {
            p
        }
    }
}

/// How many standalone objects a count of `n` asks for: `n + 1`, or none
/// when `n` is negative.
pub open spec fn standalone_count(n: i32) -> int {
    if n < 0 {
        0
    } else {
        n + 1
    }
}

/// Up to `left` objects of kind `kind` scattered over the candidate tiles
/// `cands`, reading draws from `at`: each picks a position in the list, the
/// tile there gets the object, and the last candidate takes its place in the
/// list. The result holds the objects, where the draws end and whether each
/// answered the question asked there.
pub open spec fn scatter_spec(
    objs: Seq<Option<ObjectKind>>,
    cands: Seq<usize>,
    left: int,
    kind: ObjectKind,
    ds: Seq<Draw>,
    at: int,
) -> (Seq<Option<ObjectKind>>, int, bool)
    decreases left,
{
    if left <= 0 || cands.len() == 0 {
        (objs, at, true)
    } else {
        match pick_usize_at(ds, at, 0, (cands.len() - 1) as usize) {
            None => (objs, at, false),
            Some(k) => scatter_spec(
                objs.update(cands[k as int] as int, Some(kind)),
                cands.update(k as int, cands.last()).drop_last(),
                left - 1,
                kind,
                ds,
                at + 1,
            ),
        }
    }
}

/// Puts `count` objects of kind `kind` on free grass tiles chosen uniformly
/// at random, one after the other, or on all of them when there are fewer.
/// Which tiles, for given draws, `scatter_spec` states: the candidates are
/// the free grass tiles in increasing order.
fn spawn_on_random_free_grass<D: DrawSource>(
    tile_grid: &MapTileGrid,
    object_grid: &mut ObjectKindGrid,
    dims: MapDimensions,
    count: u32,
    kind: ObjectKind,
    draws: &mut D,
)
    requires
        grid_wf(tile_grid@, dims),
        old(object_grid)@.len() == tile_grid@.len(),
    ensures
        starts_with(final(draws).drawn(), old(draws).drawn()),
        forall|ds: Seq<Draw>|
            #[trigger] starts_with(ds, final(draws).drawn()) ==> scatter_spec(
                old(object_grid)@,
                free_grass_list(tile_grid@, old(object_grid)@, tile_grid@.len() as int),
                count as int,
                kind,
                ds,
                old(draws).drawn().len() as int,
            ) == (final(object_grid)@, final(draws).drawn().len() as int, true),
        placed_on_free_grass(tile_grid@, old(object_grid)@, final(object_grid)@, kind),
        placed_count(old(object_grid)@, final(object_grid)@) == (if count <= free_grass_count(
            tile_grid@,
            old(object_grid)@,
        ) {
            count as nat
        } else {
            free_grass_count(tile_grid@, old(object_grid)@)
        }),
{
    let ghost start = object_grid@;
    let ghost tiles = tile_grid@;
    let ghost d0 = draws.drawn();
    proof {
        lemma_starts_with_push(d0, Draw::Flip { numerator: 1, denominator: 2, outcome: true });
    }
    let ghost freep = |i: int| tiles[i] == TileType::Grass && start[i] is None;
    let mut candidates: Vec<usize> = Vec::new();
    let total_tiles = dims.total_tiles();
    let mut i: usize = 0;
    while i < total_tiles
        invariant
            total_tiles == tile_grid@.len(),
            tiles == tile_grid@,
            object_grid@ == start,
            start.len() == tile_grid@.len(),
            freep == (|i: int| tiles[i] == TileType::Grass && start[i] is None),
            i <= total_tiles,
            forall|k: int| 0 <= k < candidates@.len() ==> (#[trigger] candidates@[k]) < i && freep(
                candidates@[k] as int,
            ),
            forall|a: int, b: int| 0 <= a < b < candidates@.len() ==> candidates@[a] < candidates@[b],
            candidates@.len() == count_below(freep, i as int),
            candidates@ == free_grass_list(tiles, start, i as int),
        decreases total_tiles - i,
    {
        if tile_grid[i] == TileType::Grass && object_grid[i].is_none() {
            candidates.push(i);
        }
        i = i + 1;
    }
    let ghost cands0 = candidates@;
    proof {
        assert(free_grass_count(tiles, start) == count_below(freep, total_tiles as int));
        lemma_count_none(|i: int| start[i] is None && start[i] is Some, total_tiles as int);
    }
    let mut placed: u32 = 0;
    while placed < count
        invariant
            total_tiles == tile_grid@.len(),
            tiles == tile_grid@,
            start.len() == tile_grid@.len(),
            object_grid@.len() == tile_grid@.len(),
            placed <= count,
            forall|k: int|
                0 <= k < candidates@.len() ==> (#[trigger] candidates@[k]) < total_tiles
                    && tile_grid@[candidates@[k] as int] == TileType::Grass
                    && object_grid@[candidates@[k] as int] is None,
            forall|a: int, b: int| 0 <= a < b < candidates@.len() ==> candidates@[a] != candidates@[b],
            placed_on_free_grass(tile_grid@, start, object_grid@, kind),
            candidates@.len() == free_grass_count(tiles, object_grid@),
            placed_count(start, object_grid@) == placed,
            free_grass_count(tiles, start) == free_grass_count(tiles, object_grid@) + placed,
            starts_with(draws.drawn(), d0),
            forall|ds: Seq<Draw>| #[trigger] starts_with(ds, draws.drawn()) ==> scatter_spec(start, cands0, count as int, kind, ds, d0.len() as int)
                == scatter_spec(object_grid@, candidates@, count - placed, kind, ds, draws.drawn().len() as int),
        ensures
            starts_with(draws.drawn(), d0),
            forall|ds: Seq<Draw>| #[trigger] starts_with(ds, draws.drawn()) ==> scatter_spec(start, cands0, count as int, kind, ds, d0.len() as int)
                == (object_grid@, draws.drawn().len() as int, true),
            placed_on_free_grass(tile_grid@, start, object_grid@, kind),
            placed_count(start, object_grid@) == placed,
            free_grass_count(tiles, start) == free_grass_count(tiles, object_grid@) + placed,
            placed == count || free_grass_count(tiles, object_grid@) == 0,
        decreases count - placed,
    {
        if candidates.len() == 0 {
            break;
        }
        let ghost d1 = draws.drawn();
        let k = draws.pick_usize(0, candidates.len() - 1);
        proof {
            lemma_starts_with_push(d1, Draw::PickUsize { lo: 0, hi: (candidates.len() - 1) as usize, value: k });
            lemma_starts_with_trans(draws.drawn(), d1, d0);
        }
        let idx = candidates[k];
        let ghost before = object_grid@;
        object_grid[idx] = Some(kind);
        proof {
            let j = idx as int;
            assert(placed_on_free_grass(tile_grid@, before, object_grid@, kind));
            lemma_placed_trans(tile_grid@, start, before, object_grid@, kind);
            let pf = |i: int| tiles[i] == TileType::Grass && before[i] is None;
            let qf = |i: int| tiles[i] == TileType::Grass && object_grid@[i] is None;
            lemma_count_flip(pf, qf, total_tiles as int, j);
            assert(start[j] is None);
            let pn = |i: int| start[i] is None && object_grid@[i] is Some;
            let qn = |i: int| start[i] is None && before[i] is Some;
            lemma_count_flip(pn, qn, total_tiles as int, j);
        }
        let ghost cands = candidates@;
        candidates.swap_remove(k);
        proof {
            assert forall|m: int| 0 <= m < candidates@.len() implies (#[trigger] candidates@[m]) < total_tiles
                && tile_grid@[candidates@[m] as int] == TileType::Grass
                && object_grid@[candidates@[m] as int] is None by {
                if m == k as int {
                    assert(candidates@[m] == cands[cands.len() - 1]);
                    assert(cands.len() - 1 != k as int);
                } else {
                    assert(candidates@[m] == cands[m]);
                }
            }
            assert forall|a: int, b: int| 0 <= a < b < candidates@.len() implies candidates@[a] != candidates@[b] by {
                let ia = if a == k as int { cands.len() - 1 } else { a };
                let ib = if b == k as int { cands.len() - 1 } else { b };
                assert(candidates@[a] == cands[ia]);
                assert(candidates@[b] == cands[ib]);
                if ia < ib {
                } else {
                    assert(ib < ia);
                }
            }
        }
        proof {
            assert forall|ds: Seq<Draw>| #[trigger] starts_with(ds, draws.drawn()) implies scatter_spec(
                start,
                cands0,
                count as int,
                kind,
                ds,
                d0.len() as int,
            ) == scatter_spec(object_grid@, candidates@, count - (placed + 1), kind, ds, draws.drawn().len() as int) by {
                lemma_starts_with_trans(ds, draws.drawn(), d1);
                assert(ds[d1.len() as int] == draws.drawn()[d1.len() as int]);
                assert(object_grid@ == before.update(idx as int, Some(kind)));
                assert(candidates@ == cands.update(k as int, cands.last()).drop_last());
            }
        }
        placed = placed + 1;
    }
}

/// Plants `num_of_trees + 1` standalone trees (none when `num_of_trees` is
/// negative) on free grass tiles chosen uniformly at random, stopping early
/// when no free grass tile is left.
/// The tiles are those of `scatter_spec` for some list of draws; for given
/// draws, `spawn_standalone_trees_with` states them.
pub fn spawn_standalone_trees(
    tile_grid: &MapTileGrid,
    object_grid: &mut ObjectKindGrid,
    map_dimensions: MapDimensions,
    num_of_trees: i32,
    rng: &mut ThreadRng,
)
    requires
        grid_wf(tile_grid@, map_dimensions),
        old(object_grid)@.len() == tile_grid@.len(),
    ensures
        placed_on_free_grass(tile_grid@, old(object_grid)@, final(object_grid)@, ObjectKind::Tree),
        ({
            let wanted: int = if num_of_trees < 0 { 0 } else { num_of_trees + 1 };
            let free = free_grass_count(tile_grid@, old(object_grid)@);
            placed_count(old(object_grid)@, final(object_grid)@) == if wanted <= free { wanted } else { free as int }
        }),
        exists|ds: Seq<Draw>|
            #[trigger] scatter_spec(
                old(object_grid)@,
                free_grass_list(tile_grid@, old(object_grid)@, tile_grid@.len() as int),
                standalone_count(num_of_trees),
                ObjectKind::Tree,
                ds,
                0,
            ) == (final(object_grid)@, ds.len() as int, true),
{
    let mut draws = RandomDraws::new(rng);
    spawn_standalone_trees_with(tile_grid, object_grid, map_dimensions, num_of_trees, &mut draws);
    proof {
        lemma_starts_with_push(draws.drawn(), Draw::Flip { numerator: 1, denominator: 2, outcome: true });
    }
}

/// The standalone trees of `spawn_standalone_trees`, with the draws taken from
/// `draws`.
pub fn spawn_standalone_trees_with<D: DrawSource>(
    tile_grid: &MapTileGrid,
    object_grid: &mut ObjectKindGrid,
    map_dimensions: MapDimensions,
    num_of_trees: i32,
    draws: &mut D,
)
    requires
        grid_wf(tile_grid@, map_dimensions),
        old(object_grid)@.len() == tile_grid@.len(),
    ensures
        starts_with(final(draws).drawn(), old(draws).drawn()),
        forall|ds: Seq<Draw>|
            #[trigger] starts_with(ds, final(draws).drawn()) ==> scatter_spec(
                old(object_grid)@,
                free_grass_list(tile_grid@, old(object_grid)@, tile_grid@.len() as int),
                standalone_count(num_of_trees),
                ObjectKind::Tree,
                ds,
                old(draws).drawn().len() as int,
            ) == (final(object_grid)@, final(draws).drawn().len() as int, true),
        placed_on_free_grass(tile_grid@, old(object_grid)@, final(object_grid)@, ObjectKind::Tree),
        ({
            let wanted: int = if num_of_trees < 0 { 0 } else { num_of_trees + 1 };
            let free = free_grass_count(tile_grid@, old(object_grid)@);
            placed_count(old(object_grid)@, final(object_grid)@) == if wanted <= free { wanted } else { free as int }
        }),
{
    let count: u32 = if num_of_trees < 0 { 0 } else { num_of_trees as u32 + 1 };
    spawn_on_random_free_grass(tile_grid, object_grid, map_dimensions, count, ObjectKind::Tree, draws);
}

/// Plants `num_of_grass + 1` standalone grass objects (none when
/// `num_of_grass` is negative) on free grass tiles chosen uniformly at
/// random, stopping early when no free grass tile is left.
/// The tiles are those of `scatter_spec` for some list of draws; for given
/// draws, `spawn_standalone_grass_with` states them.
pub fn spawn_standalone_grass(
    tile_grid: &MapTileGrid,
    object_grid: &mut ObjectKindGrid,
    map_dimensions: MapDimensions,
    num_of_grass: i32,
    rng: &mut ThreadRng,
)
    requires
        grid_wf(tile_grid@, map_dimensions),
        old(object_grid)@.len() == tile_grid@.len(),
    ensures
        placed_on_free_grass(tile_grid@, old(object_grid)@, final(object_grid)@, ObjectKind::Grass),
        ({
            let wanted: int = if num_of_grass < 0 { 0 } else { num_of_grass + 1 };
            let free = free_grass_count(tile_grid@, old(object_grid)@);
            placed_count(old(object_grid)@, final(object_grid)@) == if wanted <= free { wanted } else { free as int }
        }),
        exists|ds: Seq<Draw>|
            #[trigger] scatter_spec(
                old(object_grid)@,
                free_grass_list(tile_grid@, old(object_grid)@, tile_grid@.len() as int),
                standalone_count(num_of_grass),
                ObjectKind::Grass,
                ds,
                0,
            ) == (final(object_grid)@, ds.len() as int, true),
{
    let mut draws = RandomDraws::new(rng);
    spawn_standalone_grass_with(tile_grid, object_grid, map_dimensions, num_of_grass, &mut draws);
    proof {
        lemma_starts_with_push(draws.drawn(), Draw::Flip { numerator: 1, denominator: 2, outcome: true });
    }
}

/// The standalone grass of `spawn_standalone_grass`, with the draws taken from
/// `draws`.
pub fn spawn_standalone_grass_with<D: DrawSource>(
    tile_grid: &MapTileGrid,
    object_grid: &mut ObjectKindGrid,
    map_dimensions: MapDimensions,
    num_of_grass: i32,
    draws: &mut D,
)
    requires
        grid_wf(tile_grid@, map_dimensions),
        old(object_grid)@.len() == tile_grid@.len(),
    ensures
        starts_with(final(draws).drawn(), old(draws).drawn()),
        forall|ds: Seq<Draw>|
            #[trigger] starts_with(ds, final(draws).drawn()) ==> scatter_spec(
                old(object_grid)@,
                free_grass_list(tile_grid@, old(object_grid)@, tile_grid@.len() as int),
                standalone_count(num_of_grass),
                ObjectKind::Grass,
                ds,
                old(draws).drawn().len() as int,
            ) == (final(object_grid)@, final(draws).drawn().len() as int, true),
        placed_on_free_grass(tile_grid@, old(object_grid)@, final(object_grid)@, ObjectKind::Grass),
        ({
            let wanted: int = if num_of_grass < 0 { 0 } else { num_of_grass + 1 };
            let free = free_grass_count(tile_grid@, old(object_grid)@);
            placed_count(old(object_grid)@, final(object_grid)@) == if wanted <= free { wanted } else { free as int }
        }),
{
    let count: u32 = if num_of_grass < 0 { 0 } else { num_of_grass as u32 + 1 };
    spawn_on_random_free_grass(tile_grid, object_grid, map_dimensions, count, ObjectKind::Grass, draws);
}

} // verus!
