use vstd::prelude::*;

use crate::entities::object::{kind_of, data_of, MapObjectGrid, Object, ObjectData, ObjectKind, ObjectKindGrid};
use crate::map::map_gen_functions::{
    all_river_tiles_recorded, create_lakes_with, create_rivers_with, lake_entry, lakes_have_data, lakes_spec,
    rivers_spec, rivers_have_sprites, river_side_count, set_lake_shore_and_corner_sprites, set_river_tile_animations,
    spawn_forests_around_lakes_with, spawn_grass_around_lakes_with, spawn_grass_around_rivers_with,
    grow_forests, spawn_standalone_grass_with, spawn_standalone_trees_with, lemma_placed_trans,
    lemma_starts_with_push, lemma_starts_with_trans, lemma_starts_with_skip, no_flows, standalone_forests,
    scatter_spec, standalone_count, free_grass_list, lakes_forest_spec, lakes_grass_spec, rivers_grass_spec, river_entry, starts_with, placed_on_free_grass, LakeSpriteGrid,
    RiverSpriteGrid,
};
use crate::utils::draws::{Draw, DrawSource, RandomDraws};
use crate::map::tile::{LakeSpriteData, RiverSpriteData, TileType};
use crate::utils::directional_deltas::Direction;
use crate::utils::map_cord::MapCord;
use rand::rngs::ThreadRng;

verus! {

/// The tiles of a map, row by row (index `y * width + x`).
pub type MapTileGrid = Vec<TileType>;

/// Width and height of a map, in tiles.
#[derive(Clone, Copy, Debug, PartialEq, Eq, Structural)]
pub struct MapDimensions {
    pub width: u16,
    pub height: u16,
}

/// A `u16` read as an `i16` (two's complement), as `value as i16` does.
pub open spec fn as_i16(v: u16) -> int {
    if v <= 32767 {
        v as int
    } else {
        v - 65536
    }
}

/// Whether the point `(x, y)` lies on the map. The bounds are the width and
/// height read as `i16`, so a dimension above `i16::MAX` admits no point.
pub open spec fn in_bounds(dims: MapDimensions, x: int, y: int) -> bool {
    &&& 0 <= x < as_i16(dims.width)
    &&& 0 <= y < as_i16(dims.height)
}

/// Whether a coordinate lies on the map.
pub open spec fn cord_in_bounds(dims: MapDimensions, c: MapCord) -> bool {
    in_bounds(dims, c.x as int, c.y as int)
}

/// The row-major index of the point `(x, y)`.
pub open spec fn tile_index(dims: MapDimensions, x: int, y: int) -> int {
    y * dims.width + x
}

/// The row-major index of a coordinate.
pub open spec fn cord_index(dims: MapDimensions, c: MapCord) -> int {
    tile_index(dims, c.x as int, c.y as int)
}

/// The number of tiles of a map.
pub open spec fn total(dims: MapDimensions) -> int {
    dims.width * dims.height
}

/// A grid holds exactly one tile for each point of the map.
pub open spec fn grid_wf(grid: Seq<TileType>, dims: MapDimensions) -> bool {
    grid.len() == total(dims)
}

/// The tile at the point `(x, y)` of a grid.
pub open spec fn tile_at(grid: Seq<TileType>, dims: MapDimensions, x: int, y: int) -> TileType {
    grid[tile_index(dims, x, y)]
}

/// Whether the point `(x, y)` is on the map and holds a tile of type `t`.
pub open spec fn is_tile(grid: Seq<TileType>, dims: MapDimensions, x: int, y: int, t: TileType) -> bool {
    in_bounds(dims, x, y) && tile_at(grid, dims, x, y) == t
}

/// `u16` values above `i16::MAX` read as negative `i16` values.
pub proof fn lemma_as_i16(v: u16)
    ensures
        (v as i16) as int == as_i16(v),
{
    assert(v <= 32767 ==> (v as i16) as int == v as int) by (bit_vector);
    assert(v > 32767 ==> (v as i16) as int == v as int - 65536) by (bit_vector);
}

/// An in-bounds point has an index inside the grid, and different in-bounds
/// points have different indices.
pub proof fn lemma_index_in_grid(dims: MapDimensions, x: int, y: int)
    requires
        in_bounds(dims, x, y),
    ensures
        0 <= tile_index(dims, x, y) < total(dims),
        tile_index(dims, x, y) <= (i16::MAX as int) * (u16::MAX as int) + (i16::MAX as int),
{
    let w = dims.width as int;
    let h = dims.height as int;
    assert(0 <= y * w + x < w * h) by (nonlinear_arith)
        requires
            0 <= x < w,
            0 <= y < h,
    ;
    assert(y * w + x <= 32767 * 65535 + 32767) by (nonlinear_arith)
        requires
            0 <= x <= 32767,
            0 <= y <= 32767,
            0 <= w <= 65535,
    ;
}

/// Two in-bounds points with the same index are the same point.
pub proof fn lemma_index_injective(dims: MapDimensions, x1: int, y1: int, x2: int, y2: int)
    requires
        in_bounds(dims, x1, y1),
        in_bounds(dims, x2, y2),
        tile_index(dims, x1, y1) == tile_index(dims, x2, y2),
    ensures
        x1 == x2,
        y1 == y2,
{
    let w = dims.width as int;
    assert(y1 == y2) by (nonlinear_arith)
        requires
            0 <= x1 < w,
            0 <= x2 < w,
            0 <= y1,
            0 <= y2,
            y1 * w + x1 == y2 * w + x2,
    {
        if y1 < y2 {
            assert(y1 * w + w <= y2 * w);
        } else if y2 < y1 {
            assert(y2 * w + w <= y1 * w);
        }
    }
}

/// On a map whose sides fit in `i16`, every index of the grid is the index
/// of the on-map point `(i % width, i / width)`.
pub proof fn lemma_index_decompose(dims: MapDimensions, i: int)
    requires
        dims.width <= 32767,
        dims.height <= 32767,
        0 <= i < total(dims),
    ensures
        in_bounds(dims, i % (dims.width as int), i / (dims.width as int)),
        tile_index(dims, i % (dims.width as int), i / (dims.width as int)) == i,
{
    let w = dims.width as int;
    let h = dims.height as int;
    assert(w > 0) by (nonlinear_arith)
        requires
            0 <= i < w * h,
            h >= 0,
    ;
    vstd::arithmetic::div_mod::lemma_fundamental_div_mod(i, w);
    assert(0 <= i % w < w) by {
        vstd::arithmetic::div_mod::lemma_mod_bound(i, w);
    }
    assert(0 <= i / w < h) by {
        vstd::arithmetic::div_mod::lemma_div_pos_is_pos(i, w);
        if i / w >= h {
            assert((i / w) * w >= h * w) by (nonlinear_arith)
                requires
                    i / w >= h,
                    w > 0,
            ;
            assert(w * (i / w) == (i / w) * w) by (nonlinear_arith);
            assert(w * h == h * w) by (nonlinear_arith);
        }
    }
    assert((i / w) * w == w * (i / w)) by (nonlinear_arith);
}

impl MapDimensions {
    /// The number of tiles of the map.
    pub fn total_tiles(&self) -> (n: usize)
        ensures
            n == total(*self),
    {
        assert(self.width as int * self.height as int <= 65535 * 65535) by (nonlinear_arith)
            requires
                self.width <= 65535,
                self.height <= 65535,
        ;
        self.width as usize * self.height as usize
    }
}


/// How many random features map generation makes. These counts are drawn
/// from floating-point proportions of the map size by the caller.
#[derive(Clone, Copy, Debug, PartialEq, Eq, Structural)]
pub struct MapGenCounts {
    /// Number of lakes to grow.
    pub lake_cycles: i32,
    /// One less than the number of standalone trees (negative for none).
    pub standalone_trees: i32,
    /// One less than the number of standalone grass objects (negative for none).
    pub standalone_grass: i32,
}

/// Why map generation gave up.
#[derive(Clone, Debug)]
pub enum MapGenError {
    /// The river tile `at` ended up with no river neighbour or with river on
    /// all four sides, so no river sprite fits it; `tiles` and `rivers` are
    /// the generated tiles and flow directions.
    RiverWithoutSprite { at: MapCord, tiles: MapTileGrid, rivers: Vec<Option<Direction>> },
}

/// What a failed generation hands back: the tiles of a map of grass, lakes
/// and rivers, the flow direction of exactly its river tiles, and the river
/// tile `at`, with no river side or river on all four sides.
pub open spec fn failed_generation(
    dims: MapDimensions,
    at: MapCord,
    tiles: Seq<TileType>,
    rivers: Seq<Option<Direction>>,
) -> bool {
    &&& grid_wf(tiles, dims)
    &&& rivers.len() == tiles.len()
    &&& forall|i: int|
        0 <= i < tiles.len() ==> (#[trigger] tiles[i] == TileType::Grass || tiles[i] == TileType::Lake || tiles[i]
            == TileType::River)
    &&& forall|i: int| 0 <= i < tiles.len() ==> (#[trigger] tiles[i] == TileType::River <==> rivers[i] is Some)
    &&& cord_in_bounds(dims, at)
    &&& rivers[cord_index(dims, at)] is Some
    &&& !(1 <= crate::map::map_gen_functions::river_side_count(tiles, dims, at.x as int, at.y as int) <= 3)
}

/// The lake overlay of `grid`: the entry of each tile, row by row.
pub open spec fn lake_overlay(grid: Seq<TileType>, dims: MapDimensions) -> Seq<Option<LakeSpriteData>> {
    Seq::new(total(dims) as nat, |i: int| lake_entry(grid, dims, i % (dims.width as int), i / (dims.width as int)))
}

/// The river overlay of `tiles` with the flow directions `rivers`: the
/// entry of each tile, row by row.
pub open spec fn river_overlay(tiles: Seq<TileType>, rivers: Seq<Option<Direction>>, dims: MapDimensions) -> Seq<
    Option<RiverSpriteData>,
> {
    Seq::new(
        total(dims) as nat,
        |i: int| river_entry(tiles, rivers, dims, i % (dims.width as int), i / (dims.width as int)),
    )
}

/// The lakes that the draws `ds` give a map of grass of size `dims`:
/// `lakes_spec` for `lake_cycles` lakes from the first draw.
pub open spec fn generated_lakes(dims: MapDimensions, lake_cycles: int, ds: Seq<Draw>) -> (
    Seq<TileType>,
    Seq<MapCord>,
    Seq<MapCord>,
    int,
    bool,
) {
    lakes_spec(Seq::new(total(dims) as nat, |i: int| TileType::Grass), dims, Seq::empty(), Seq::empty(), lake_cycles, ds, 0)
}

/// The rivers that follow: `rivers_spec` out of the lakes' overlay, from
/// the draw where the lakes end.
pub open spec fn generated_rivers(dims: MapDimensions, lake_cycles: int, ds: Seq<Draw>) -> (
    Seq<TileType>,
    Seq<Option<Direction>>,
    int,
    bool,
) {
    let lakes = generated_lakes(dims, lake_cycles, ds);
    rivers_spec(lake_overlay(lakes.0, dims), dims, lakes.0, no_flows(dims), 0, 0, ds, lakes.3)
}

/// The tiles and flow directions that the draws `ds` give a map of grass of
/// size `dims`: its lakes, then its rivers.
pub open spec fn generated_terrain(dims: MapDimensions, lake_cycles: int, ds: Seq<Draw>) -> (
    Seq<TileType>,
    Seq<Option<Direction>>,
) {
    let rivers = generated_rivers(dims, lake_cycles, ds);
    (rivers.0, rivers.1)
}

/// The objects that the draws `ds` put on the generated terrain, each step
/// reading its draws where the one before ends: trees around the lakes drawn
/// to be surrounded by forest, standalone forests, the standalone trees and
/// the standalone grass, grass around the lakes drawn to be surrounded by
/// grass, and grass along the rivers.
pub open spec fn generated_objects(dims: MapDimensions, counts: MapGenCounts, ds: Seq<Draw>) -> Seq<
    Option<ObjectKind>,
> {
    let lakes = generated_lakes(dims, counts.lake_cycles as int, ds);
    let rivers = generated_rivers(dims, counts.lake_cycles as int, ds);
    let tiles = rivers.0;
    let none = Seq::new(total(dims) as nat, |i: int| None::<ObjectKind>);
    let around = lakes_forest_spec(tiles, dims, none, lakes.1, 0, ds, rivers.2);
    let forests = standalone_forests(tiles, dims, around.0, ds.skip(around.1));
    let trees = scatter_spec(
        forests.0,
        free_grass_list(tiles, forests.0, tiles.len() as int),
        standalone_count(counts.standalone_trees),
        ObjectKind::Tree,
        ds,
        around.1 + forests.1,
    );
    let grass = scatter_spec(
        trees.0,
        free_grass_list(tiles, trees.0, tiles.len() as int),
        standalone_count(counts.standalone_grass),
        ObjectKind::Grass,
        ds,
        trees.1,
    );
    let lake_grass = lakes_grass_spec(tiles, dims, grass.0, lakes.2, 0, ds, grass.1);
    rivers_grass_spec(tiles, dims, lake_grass.0, river_overlay(tiles, rivers.1, dims), 0, 0, ds, lake_grass.1).0
}

/// The lakes and rivers of a map of grass of size `dims`, with the draws
/// taken from `draws`, a source with no draws made yet: the tiles, the lake
/// overlay, the flow directions, and the tiles of the lakes to surround with
/// forest and with grass. The tiles and flow directions are those of
/// `generated_terrain` for the draws made, whatever draws follow.
#[verifier::rlimit(100)]
fn lay_terrain<D: DrawSource>(dims: MapDimensions, lake_cycles: i32, draws: &mut D) -> (r: (
    MapTileGrid,
    LakeSpriteGrid,
    Vec<Option<Direction>>,
    Vec<MapCord>,
    Vec<MapCord>,
))
    requires
        0 < dims.width <= 32767,
        0 < dims.height <= 32767,
        old(draws).drawn().len() == 0,
    ensures
        grid_wf(r.0@, dims),
        r.1@.len() == total(dims),
        r.2@.len() == r.0@.len(),
        forall|i: int| 0 <= i < r.0@.len() && #[trigger] r.0@[i] == TileType::Lake ==> r.1@[i] is Some,
        forall|i: int|
            0 <= i < r.0@.len() ==> (#[trigger] r.0@[i] == TileType::Grass || r.0@[i] == TileType::Lake || r.0@[i]
                == TileType::River),
        forall|i: int| 0 <= i < r.0@.len() ==> (#[trigger] r.0@[i] == TileType::River <==> r.2@[i] is Some),
        lake_cycles <= 0 ==> rivers_have_sprites(r.0@, r.2@, dims) && forall|i: int|
            0 <= i < r.0@.len() ==> #[trigger] r.0@[i] == TileType::Grass,
        forall|ds: Seq<Draw>|
            #[trigger] starts_with(ds, final(draws).drawn()) ==> {
                &&& generated_terrain(dims, lake_cycles as int, ds) == (r.0@, r.2@)
                &&& generated_lakes(dims, lake_cycles as int, ds).1 == r.3@
                &&& generated_lakes(dims, lake_cycles as int, ds).2 == r.4@
                &&& generated_rivers(dims, lake_cycles as int, ds).2 == final(draws).drawn().len()
            },
{
    let total_map_length = dims.total_tiles();
    let mut tile_grid: MapTileGrid = vec![TileType::Grass; total_map_length];
    let ghost grass_grid = tile_grid@;
    proof {
        assert(grass_grid =~= Seq::new(total(dims) as nat, |i: int| TileType::Grass));
    }
    let (forest_lake_tiles, grass_lake_tiles) = create_lakes_with(&mut tile_grid, dims, lake_cycles, draws);
    let ghost d1 = draws.drawn();
    proof {
        assert(d1.skip(0) =~= d1);
    }
    let lake_sprite_data = set_lake_shore_and_corner_sprites(&tile_grid, dims);
    proof {
        assert forall|i: int| 0 <= i < lake_sprite_data@.len() implies #[trigger] lake_sprite_data@[i] == lake_overlay(
            tile_grid@,
            dims,
        )[i] by {
            lemma_index_decompose(dims, i);
            let x = i % (dims.width as int);
            let y = i / (dims.width as int);
            assert(lake_sprite_data@[tile_index(dims, x, y)] == lake_entry(tile_grid@, dims, x, y));
        }
        assert(lake_sprite_data@ =~= lake_overlay(tile_grid@, dims));
    }
    proof {
        assert forall|i: int| 0 <= i < tile_grid@.len() && #[trigger] tile_grid@[i] == TileType::Lake implies
            lake_sprite_data@[i] is Some by {
            lemma_index_decompose(dims, i);
            let x = i % (dims.width as int);
            let y = i / (dims.width as int);
            assert(lake_sprite_data@[tile_index(dims, x, y)] == lake_entry(tile_grid@, dims, x, y));
        }
    }
    proof {
        if lake_cycles <= 0 {
            assert forall|i: int| 0 <= i < lake_sprite_data@.len() implies #[trigger] lake_sprite_data@[i] is None by {
                if lake_sprite_data@[i] is Some {
                    assert(tile_grid@[i] == grass_grid[i]);
                }
            }
            assert(crate::map::map_gen_functions::no_lake_data(lake_sprite_data@));
        }
    }
    let ghost lake_grid = tile_grid@;
    let all_river_tiles = create_rivers_with(&mut tile_grid, &lake_sprite_data, dims, draws);
    let ghost d2 = draws.drawn();
    proof {
        assert(d2.take(d1.len() as int) == d1);
        assert forall|k: int| 0 <= k < d1.len() implies d2[k] == d1[k] by {
            assert(d2.take(d1.len() as int)[k] == d1[k]);
        }
        assert(starts_with(d2, d1));
        assert forall|ds: Seq<Draw>| #[trigger] starts_with(ds, d2) implies {
            &&& generated_terrain(dims, lake_cycles as int, ds) == (tile_grid@, all_river_tiles@)
            &&& generated_lakes(dims, lake_cycles as int, ds).1 == forest_lake_tiles@
            &&& generated_lakes(dims, lake_cycles as int, ds).2 == grass_lake_tiles@
            &&& generated_rivers(dims, lake_cycles as int, ds).2 == d2.len()
        } by {
            lemma_starts_with_trans(ds, d2, d1);
        }
    }
    proof {
        assert forall|i: int| 0 <= i < tile_grid@.len() && #[trigger] tile_grid@[i] == TileType::River implies
            all_river_tiles@[i] is Some by {
            assert(grass_grid[i] == TileType::Grass);
            assert(lake_grid[i] == grass_grid[i] || lake_grid[i] == TileType::Lake);
        }
    }
    proof {
        if lake_cycles <= 0 {
            assert forall|x: int, y: int|
                in_bounds(dims, x, y) && (#[trigger] all_river_tiles@[tile_index(dims, x, y)]) is Some implies 1
                <= crate::map::map_gen_functions::river_side_count(tile_grid@, dims, x, y) <= 3 by {
                lemma_index_in_grid(dims, x, y);
            }
            assert(crate::map::map_gen_functions::rivers_have_sprites(tile_grid@, all_river_tiles@, dims));
        }
    }
    proof {
        assert forall|i: int| 0 <= i < tile_grid@.len() implies (#[trigger] tile_grid@[i] == TileType::Grass
            || tile_grid@[i] == TileType::Lake || tile_grid@[i] == TileType::River) by {
            assert(grass_grid[i] == TileType::Grass);
            assert(lake_grid[i] == grass_grid[i] || lake_grid[i] == TileType::Lake);
        }
        assert forall|i: int| 0 <= i < tile_grid@.len() implies (#[trigger] tile_grid@[i] == TileType::River
            <==> all_river_tiles@[i] is Some) by {
            if all_river_tiles@[i] is Some {
            }
        }
    }
    (tile_grid, lake_sprite_data, all_river_tiles, forest_lake_tiles, grass_lake_tiles)
}

/// The outcome `r` of a generation agrees with the tiles and flow
/// directions `t`: it is a map exactly when every river tile of `t` has one
/// to three river sides, a map has the tiles of `t`, and an error hands back
/// `t` itself.
pub open spec fn agrees_with_terrain(
    r: Result<TileMap, MapGenError>,
    t: (Seq<TileType>, Seq<Option<Direction>>),
    dims: MapDimensions,
) -> bool {
    &&& (r is Ok <==> rivers_have_sprites(t.0, t.1, dims))
    &&& (r matches Ok(m) ==> m.tiles() == t.0)
    &&& (r matches Err(MapGenError::RiverWithoutSprite { at, tiles, rivers }) ==> tiles@ == t.0 && rivers@ == t.1)
}

/// The objects of `generated_objects`, put together from what each step
/// gives.
proof fn lemma_objects_from_steps(
    dims: MapDimensions,
    counts: MapGenCounts,
    ds: Seq<Draw>,
    tiles: Seq<TileType>,
    rivers: Seq<Option<Direction>>,
    forest_seq: Seq<MapCord>,
    grass_seq: Seq<MapCord>,
    o1: Seq<Option<ObjectKind>>,
    o2: Seq<Option<ObjectKind>>,
    o3: Seq<Option<ObjectKind>>,
    o4: Seq<Option<ObjectKind>>,
    o5: Seq<Option<ObjectKind>>,
    o6: Seq<Option<ObjectKind>>,
    a2: int,
    a3: int,
    a4: int,
    a5: int,
    a6: int,
    a7: int,
)
    requires
        generated_lakes(dims, counts.lake_cycles as int, ds).1 == forest_seq,
        generated_lakes(dims, counts.lake_cycles as int, ds).2 == grass_seq,
        generated_rivers(dims, counts.lake_cycles as int, ds).0 == tiles,
        generated_rivers(dims, counts.lake_cycles as int, ds).1 == rivers,
        generated_rivers(dims, counts.lake_cycles as int, ds).2 == a2,
        lakes_forest_spec(tiles, dims, Seq::new(total(dims) as nat, |i: int| None::<ObjectKind>), forest_seq, 0, ds, a2)
            == (o1, a3, true),
        standalone_forests(tiles, dims, o1, ds.skip(a3)) == (o2, a4 - a3, true),
        scatter_spec(
            o2,
            free_grass_list(tiles, o2, tiles.len() as int),
            standalone_count(counts.standalone_trees),
            ObjectKind::Tree,
            ds,
            a4,
        ) == (o3, a5, true),
        scatter_spec(
            o3,
            free_grass_list(tiles, o3, tiles.len() as int),
            standalone_count(counts.standalone_grass),
            ObjectKind::Grass,
            ds,
            a5,
        ) == (o4, a6, true),
        lakes_grass_spec(tiles, dims, o4, grass_seq, 0, ds, a6) == (o5, a7, true),
        rivers_grass_spec(tiles, dims, o5, river_overlay(tiles, rivers, dims), 0, 0, ds, a7).0 == o6,
    ensures
        generated_objects(dims, counts, ds) == o6,
{
}

/// A generated map: its tiles, the overlays of lake and river tiles, and the
/// kinds of object placed on it.
pub struct TileMap {
    map_tile_grid: MapTileGrid,
    map_dimensions: MapDimensions,
    lake_sprite_data: LakeSpriteGrid,
    river_sprite_data: RiverSpriteGrid,
    map_object_grid: ObjectKindGrid,
}

impl TileMap {
    /// The grid, the overlays and the object kinds all have one entry per
    /// tile of the map.
    #[verifier::type_invariant]
    spec fn sizes_agree(self) -> bool {
        &&& grid_wf(self.map_tile_grid@, self.map_dimensions)
        &&& self.lake_sprite_data@.len() == total(self.map_dimensions)
        &&& self.river_sprite_data@.len() == total(self.map_dimensions)
        &&& self.map_object_grid@.len() == total(self.map_dimensions)
        &&& forall|i: int|
            0 <= i < self.map_tile_grid@.len() && #[trigger] self.map_tile_grid@[i] == TileType::Lake
                ==> self.lake_sprite_data@[i] is Some
        &&& forall|i: int|
            0 <= i < self.map_tile_grid@.len() ==> (#[trigger] self.map_tile_grid@[i] == TileType::River
                <==> self.river_sprite_data@[i] is Some)
    }

    /// The tiles, row by row.
    pub closed spec fn tiles(self) -> Seq<TileType> {
        self.map_tile_grid@
    }

    /// The size of the map.
    pub closed spec fn dims(self) -> MapDimensions {
        self.map_dimensions
    }

    /// The lake overlay entries, row by row.
    pub closed spec fn lake_sprites(self) -> Seq<Option<LakeSpriteData>> {
        self.lake_sprite_data@
    }

    /// The river sprite entries, row by row.
    pub closed spec fn river_sprites(self) -> Seq<Option<RiverSpriteData>> {
        self.river_sprite_data@
    }

    /// The object kinds placed at generation, row by row.
    pub closed spec fn objects(self) -> Seq<Option<ObjectKind>> {
        self.map_object_grid@
    }

    /// Generates a map: lakes, their shore overlays, rivers out of them and
    /// their sprites, then forests around some lakes, standalone forests,
    /// standalone trees and grass, and grass around some lakes and along
    /// rivers. Both sides must be between 1 and `i16::MAX` tiles.
    ///
    /// On success every lake tile has its overlay entry, the river tiles are
    /// exactly the tiles with a river sprite, and every object stands on a
    /// grass tile. Generation fails exactly when a river tile gets no sprite,
    /// and the error hands back that tile with the generated tiles and flow
    /// directions; without
    /// lake cycles there are no lakes and no rivers, and it yields a map of
    /// grass. The outcome is that of `generated_terrain` and
    /// `generated_objects` for some list of draws; for given draws,
    /// `generate_map_with` states it.
    pub fn generate_map(map_width: u16, map_height: u16, counts: MapGenCounts, rng: &mut ThreadRng) -> (r: Result<
        TileMap,
        MapGenError,
    >)
        requires
            0 < map_width <= 32767,
            0 < map_height <= 32767,
        ensures
            r matches Ok(m) ==> {
                &&& m.dims() == (MapDimensions { width: map_width, height: map_height })
                &&& m.tiles().len() == total(m.dims())
                &&& forall|i: int|
                    0 <= i < m.tiles().len() && #[trigger] m.tiles()[i] == TileType::Lake
                        ==> m.lake_sprites()[i] is Some
                &&& forall|i: int|
                    0 <= i < m.tiles().len() ==> (#[trigger] m.tiles()[i] == TileType::River
                        <==> m.river_sprites()[i] is Some)
                &&& forall|i: int|
                    0 <= i < m.tiles().len() && (#[trigger] m.objects()[i]) is Some ==> m.tiles()[i]
                        == TileType::Grass
                &&& forall|x: int, y: int|
                    in_bounds(m.dims(), x, y) && #[trigger] m.tiles()[tile_index(m.dims(), x, y)] == TileType::River
                        ==> 1 <= river_side_count(m.tiles(), m.dims(), x, y) <= 3
            },
            r matches Err(MapGenError::RiverWithoutSprite { at, tiles, rivers }) ==> counts.lake_cycles > 0
                && failed_generation(MapDimensions { width: map_width, height: map_height }, at, tiles@, rivers@),
            counts.lake_cycles <= 0 ==> (r matches Ok(m) && forall|i: int|
                0 <= i < m.tiles().len() ==> #[trigger] m.tiles()[i] == TileType::Grass),
            exists|ds: Seq<Draw>|
                agrees_with_terrain(
                    r,
                    #[trigger] generated_terrain(
                        MapDimensions { width: map_width, height: map_height },
                        counts.lake_cycles as int,
                        ds,
                    ),
                    MapDimensions { width: map_width, height: map_height },
                ) && (r matches Ok(m) ==> m.objects() == generated_objects(
                    MapDimensions { width: map_width, height: map_height },
                    counts,
                    ds,
                )),
    {
        let mut draws = RandomDraws::new(rng);
        Self::generate_map_with(map_width, map_height, counts, &mut draws)
    }

    /// The map of `generate_map`, with the draws taken from `draws`, a source
    /// with no draws made yet: its lakes and rivers are those of
    /// `generated_terrain` for the draws made and its objects those of
    /// `generated_objects`, and generation fails exactly when a river tile
    /// there has no river side or river on all four.
    #[verifier::rlimit(100)]
    pub fn generate_map_with<D: DrawSource>(
        map_width: u16,
        map_height: u16,
        counts: MapGenCounts,
        draws: &mut D,
    ) -> (r: Result<
        TileMap,
        MapGenError,
    >)
        requires
            0 < map_width <= 32767,
            0 < map_height <= 32767,
            old(draws).drawn().len() == 0,
        ensures
            r matches Ok(m) ==> {
                &&& m.dims() == (MapDimensions { width: map_width, height: map_height })
                &&& m.tiles().len() == total(m.dims())
                &&& forall|i: int|
                    0 <= i < m.tiles().len() && #[trigger] m.tiles()[i] == TileType::Lake
                        ==> m.lake_sprites()[i] is Some
                &&& forall|i: int|
                    0 <= i < m.tiles().len() ==> (#[trigger] m.tiles()[i] == TileType::River
                        <==> m.river_sprites()[i] is Some)
                &&& forall|i: int|
                    0 <= i < m.tiles().len() && (#[trigger] m.objects()[i]) is Some ==> m.tiles()[i]
                        == TileType::Grass
                &&& forall|x: int, y: int|
                    in_bounds(m.dims(), x, y) && #[trigger] m.tiles()[tile_index(m.dims(), x, y)] == TileType::River
                        ==> 1 <= river_side_count(m.tiles(), m.dims(), x, y) <= 3
            },
            r matches Err(MapGenError::RiverWithoutSprite { at, tiles, rivers }) ==> counts.lake_cycles > 0
                && failed_generation(MapDimensions { width: map_width, height: map_height }, at, tiles@, rivers@),
            counts.lake_cycles <= 0 ==> (r matches Ok(m) && forall|i: int|
                0 <= i < m.tiles().len() ==> #[trigger] m.tiles()[i] == TileType::Grass),
            agrees_with_terrain(
                r,
                generated_terrain(
                    MapDimensions { width: map_width, height: map_height },
                    counts.lake_cycles as int,
                    final(draws).drawn(),
                ),
                MapDimensions { width: map_width, height: map_height },
            ),
            r matches Ok(m) ==> m.objects() == generated_objects(
                MapDimensions { width: map_width, height: map_height },
                counts,
                final(draws).drawn(),
            ),
    {
        let map_dimensions = MapDimensions { width: map_width, height: map_height };
        let dims = map_dimensions;
        let total_map_length = dims.total_tiles();
        let mut object_grid: ObjectKindGrid = vec![None; total_map_length];
        let ghost empty_objects = object_grid@;
        let (tile_grid, lake_sprite_data, all_river_tiles, forest_lake_tiles, grass_lake_tiles) = lay_terrain(
            dims,
            counts.lake_cycles,
            draws,
        );
        let ghost d2 = draws.drawn();
        match crate::map::map_gen_functions::first_river_without_sprite(&all_river_tiles, &tile_grid, dims) {
            Some(at) => {
                proof {
                    assert(!rivers_have_sprites(tile_grid@, all_river_tiles@, dims));
                    lemma_starts_with_push(d2, Draw::Flip { numerator: 1, denominator: 2, outcome: true });
                }
                return Err(MapGenError::RiverWithoutSprite { at, tiles: tile_grid, rivers: all_river_tiles });
            },
            None => {},
        }
        let river_sprite_data = set_river_tile_animations(&all_river_tiles, &tile_grid, dims);
        proof {
            assert forall|i: int| 0 <= i < tile_grid@.len() implies (#[trigger] tile_grid@[i] == TileType::River
                <==> river_sprite_data@[i] is Some) by {
                lemma_index_decompose(dims, i);
                let x = i % (dims.width as int);
                let y = i / (dims.width as int);
                assert(river_sprite_data@[tile_index(dims, x, y)] == crate::map::map_gen_functions::river_entry(
                    tile_grid@,
                    all_river_tiles@,
                    dims,
                    x,
                    y,
                ));
            }
        }
        proof {
            assert forall|x: int, y: int|
                in_bounds(dims, x, y) && #[trigger] tile_grid@[tile_index(dims, x, y)] == TileType::River implies 1
                <= river_side_count(tile_grid@, dims, x, y) <= 3 by {
                lemma_index_in_grid(dims, x, y);
                assert(all_river_tiles@[tile_index(dims, x, y)] is Some);
            }
        }
        let ghost forest_seq = forest_lake_tiles@;
        let ghost grass_seq = grass_lake_tiles@;
        spawn_forests_around_lakes_with(&tile_grid, &mut object_grid, forest_lake_tiles, dims, draws);
        let ghost o1 = object_grid@;
        let ghost d3 = draws.drawn();
        grow_forests(&tile_grid, &mut object_grid, dims, draws);
        proof {
            let d4 = draws.drawn();
            assert forall|k: int| 0 <= k < d3.len() implies d4[k] == d3[k] by {
                assert(d4.take(d3.len() as int)[k] == d3[k]);
            }
            assert(starts_with(d4, d3));
            lemma_starts_with_trans(d4, d3, d2);
        }
        proof {
            lemma_placed_trans(tile_grid@, empty_objects, o1, object_grid@, ObjectKind::Tree);
        }
        let ghost o2 = object_grid@;
        let ghost d4 = draws.drawn();
        spawn_standalone_trees_with(&tile_grid, &mut object_grid, dims, counts.standalone_trees, draws);
        proof {
            lemma_starts_with_trans(draws.drawn(), d4, d2);
        }
        proof {
            lemma_placed_trans(tile_grid@, empty_objects, o2, object_grid@, ObjectKind::Tree);
        }
        let ghost trees = object_grid@;
        let ghost d5 = draws.drawn();
        spawn_standalone_grass_with(&tile_grid, &mut object_grid, dims, counts.standalone_grass, draws);
        proof {
            lemma_starts_with_trans(draws.drawn(), d5, d2);
        }
        let ghost o3 = object_grid@;
        let ghost d6 = draws.drawn();
        spawn_grass_around_lakes_with(&tile_grid, &mut object_grid, grass_lake_tiles, dims, draws);
        proof {
            lemma_starts_with_trans(draws.drawn(), d6, d2);
        }
        proof {
            lemma_placed_trans(tile_grid@, trees, o3, object_grid@, ObjectKind::Grass);
        }
        let ghost o4 = object_grid@;
        let ghost d7 = draws.drawn();
        spawn_grass_around_rivers_with(&tile_grid, &mut object_grid, &river_sprite_data, dims, draws);
        proof {
            lemma_starts_with_trans(draws.drawn(), d7, d2);
            assert(generated_terrain(dims, counts.lake_cycles as int, draws.drawn()) == (tile_grid@, all_river_tiles@));
        }
        proof {
            let df = draws.drawn();
            let n = counts.lake_cycles as int;
            let tiles = tile_grid@;
            assert(starts_with(df, d2)) by {
                lemma_starts_with_trans(df, d7, d6);
                lemma_starts_with_trans(df, d6, d5);
                lemma_starts_with_trans(df, d5, d4);
                lemma_starts_with_trans(df, d4, d3);
                lemma_starts_with_trans(df, d3, d2);
            }
            assert(starts_with(df, d3)) by {
                lemma_starts_with_trans(df, d7, d6);
                lemma_starts_with_trans(df, d6, d5);
                lemma_starts_with_trans(df, d5, d4);
                lemma_starts_with_trans(df, d4, d3);
            }
            assert(starts_with(df, d5)) by {
                lemma_starts_with_trans(df, d7, d6);
                lemma_starts_with_trans(df, d6, d5);
            }
            assert(starts_with(df, d6)) by {
                lemma_starts_with_trans(df, d7, d6);
            }
            assert(starts_with(df, d4)) by {
                lemma_starts_with_trans(df, d7, d6);
                lemma_starts_with_trans(df, d6, d5);
                lemma_starts_with_trans(df, d5, d4);
            }
            lemma_starts_with_skip(df, d4, d3.len() as int);
            assert(empty_objects =~= Seq::new(total(dims) as nat, |i: int| None::<ObjectKind>));
            assert forall|i: int| 0 <= i < river_sprite_data@.len() implies #[trigger] river_sprite_data@[i]
                == river_overlay(tiles, all_river_tiles@, dims)[i] by {
                lemma_index_decompose(dims, i);
                let x = i % (dims.width as int);
                let y = i / (dims.width as int);
                assert(river_sprite_data@[tile_index(dims, x, y)] == river_entry(tiles, all_river_tiles@, dims, x, y));
            }
            assert(river_sprite_data@ =~= river_overlay(tiles, all_river_tiles@, dims));
            lemma_objects_from_steps(
                dims,
                counts,
                df,
                tiles,
                all_river_tiles@,
                forest_seq,
                grass_seq,
                o1,
                o2,
                trees,
                o3,
                o4,
                object_grid@,
                d2.len() as int,
                d3.len() as int,
                d4.len() as int,
                d5.len() as int,
                d6.len() as int,
                d7.len() as int,
            );
        }
        proof {
            lemma_placed_trans(tile_grid@, trees, o4, object_grid@, ObjectKind::Grass);
            assert forall|i: int| 0 <= i < object_grid@.len() && (#[trigger] object_grid@[i]) is Some implies
                tile_grid@[i] == TileType::Grass by {
                assert(object_grid@[i] == trees[i] || tile_grid@[i] == TileType::Grass);
                assert(trees[i] == empty_objects[i] || tile_grid@[i] == TileType::Grass);
            }
        }
        Ok(TileMap {
            map_tile_grid: tile_grid,
            map_dimensions,
            lake_sprite_data,
            river_sprite_data,
            map_object_grid: object_grid,
        })
    }

    /// The size of the map.
    pub fn dimensions(&self) -> (d: MapDimensions)
        ensures
            d == self.dims(),
    {
        self.map_dimensions
    }

    /// The tiles, row by row.
    pub fn map_tile_grid(&self) -> (g: &MapTileGrid)
        ensures
            g@ == self.tiles(),
            grid_wf(g@, self.dims()),
    {
        proof {
            use_type_invariant(self);
        }
        &self.map_tile_grid
    }

    /// The tile at the point `(x, y)`; the point's index must lie inside the
    /// grid.
    pub fn get_tile_from_x_y(&self, x: u16, y: u16) -> (t: TileType)
        requires
            tile_index(self.dims(), x as int, y as int) < self.tiles().len(),
        ensures
            t == self.tiles()[tile_index(self.dims(), x as int, y as int)],
    {
        assert(y as int * self.map_dimensions.width as int + x as int <= 65535 * 65535 + 65535) by (nonlinear_arith)
            requires
                x <= 65535,
                y <= 65535,
                self.map_dimensions.width <= 65535,
        ;
        let index = y as usize * self.map_dimensions.width as usize + x as usize;
        self.map_tile_grid[index]
    }

    /// Whether the point `(x, y)` lies on the map.
    pub fn is_tile_in_bounds(&self, x: i16, y: i16) -> (b: bool)
        ensures
            b == in_bounds(self.dims(), x as int, y as int),
    {
        proof {
            lemma_as_i16(self.map_dimensions.width);
            lemma_as_i16(self.map_dimensions.height);
        }
        let x_in_bounds = x >= 0 && x < self.map_dimensions.width as i16;
        let y_in_bounds = y >= 0 && y < self.map_dimensions.height as i16;
        x_in_bounds && y_in_bounds
    }

    /// The lake overlay of the tile with index `i`, if it has one.
    pub fn lake_sprite_at(&self, i: usize) -> (d: Option<LakeSpriteData>)
        requires
            i < total(self.dims()),
        ensures
            d == self.lake_sprites()[i as int],
    {
        proof {
            use_type_invariant(self);
        }
        self.lake_sprite_data[i]
    }

    /// The river sprite of the tile with index `i`, if it has one.
    pub fn river_sprite_at(&self, i: usize) -> (d: Option<RiverSpriteData>)
        requires
            i < total(self.dims()),
        ensures
            d == self.river_sprites()[i as int],
    {
        proof {
            use_type_invariant(self);
        }
        self.river_sprite_data[i]
    }

    /// The kind of object placed on the tile with index `i` at generation.
    pub fn object_kind_at(&self, i: usize) -> (k: Option<ObjectKind>)
        requires
            i < total(self.dims()),
        ensures
            k == self.objects()[i as int],
    {
        proof {
            use_type_invariant(self);
        }
        self.map_object_grid[i]
    }

    /// The objects placed at generation, fresh (whole, no flags), one entry
    /// per tile.
    pub fn map_object_grid(&self) -> (g: MapObjectGrid)
        ensures
            g@.len() == total(self.dims()),
            forall|i: int| 0 <= i < g@.len() ==> kind_of(#[trigger] g@[i]) == self.objects()[i],
            forall|i: int|
                0 <= i < g@.len() && !(#[trigger] g@[i] is NoObject) ==> data_of(g@[i]) == ObjectData::new_spec(),
    {
        proof {
            use_type_invariant(self);
        }
        let n = self.map_object_grid.len();
        let mut g: MapObjectGrid = Vec::new();
        let mut i: usize = 0;
        while i < n
            invariant
                n == self.objects().len(),
                i <= n,
                g@.len() == i,
                forall|k: int| 0 <= k < i ==> kind_of(#[trigger] g@[k]) == self.objects()[k],
                forall|k: int| 0 <= k < i && !(#[trigger] g@[k] is NoObject) ==> data_of(g@[k]) == ObjectData::new_spec(),
            decreases n - i,
        {
            g.push(Object::from_kind(self.map_object_grid[i]));
            i = i + 1;
        }
        g
    }

    /// What to draw on each tile of the window `x0..=x1` by `y0..=y1`, row
    /// by row (see `tile_draw`).
    pub fn draw(&self, x0: i16, y0: i16, x1: i16, y1: i16) -> (r: Vec<TileDrawCommand>)
        ensures
            r@ == tile_draws(self.tiles(), self.lake_sprites(), self.river_sprites(), self.dims(), y0 as int, y1 as int, x0 as int, x1 as int),
    {
        proof {
            use_type_invariant(self);
            lemma_as_i16(self.map_dimensions.width);
            lemma_as_i16(self.map_dimensions.height);
        }
        let ghost tiles = self.tiles();
        let ghost lakes = self.lake_sprites();
        let ghost rivers = self.river_sprites();
        let ghost dims = self.dims();
        let mut out: Vec<TileDrawCommand> = Vec::new();
        let mut y: i32 = y0 as i32;
        while y <= y1 as i32
            invariant
                y0 <= y,
                y <= y1 + 1 || y == y0,
                tiles == self.tiles(),
                lakes == self.lake_sprites(),
                rivers == self.river_sprites(),
                dims == self.dims(),
                out@ == tile_draws(tiles, lakes, rivers, dims, y0 as int, y - 1, x0 as int, x1 as int),
            decreases y1 + 1 - y,
        {
            let ghost out_row = out@;
            let mut x: i32 = x0 as i32;
            while x <= x1 as i32
                invariant
                    x0 <= x,
                    x <= x1 + 1 || x == x0,
                    y0 <= y <= y1,
                    tiles == self.tiles(),
                    lakes == self.lake_sprites(),
                    rivers == self.river_sprites(),
                    dims == self.dims(),
                    out@ == out_row + tile_draws_row(tiles, lakes, rivers, dims, y as int, x0 as int, x - 1),
                decreases x1 + 1 - x,
            {
                let xi = x as i16;
                let yi = y as i16;
                let cmd = self.tile_draw_at(xi, yi);
                out.push(cmd);
                proof {
                    assert(out_row + tile_draws_row(tiles, lakes, rivers, dims, y as int, x0 as int, x - 1).push(cmd)
                        =~= out_row + tile_draws_row(tiles, lakes, rivers, dims, y as int, x0 as int, x as int));
                }
                x = x + 1;
            }
            proof {
                if x == x0 && x1 + 1 != x {
                    assert(tile_draws_row(tiles, lakes, rivers, dims, y as int, x0 as int, x1 as int) =~= Seq::<TileDrawCommand>::empty());
                    assert(tile_draws_row(tiles, lakes, rivers, dims, y as int, x0 as int, x - 1) =~= Seq::<TileDrawCommand>::empty());
                }
                assert(out@ =~= tile_draws(tiles, lakes, rivers, dims, y0 as int, y as int, x0 as int, x1 as int));
            }
            y = y + 1;
        }
        proof {
            if y == y0 && y != y1 + 1 {
                assert(tile_draws(tiles, lakes, rivers, dims, y0 as int, y1 as int, x0 as int, x1 as int) =~= Seq::<TileDrawCommand>::empty());
                assert(tile_draws(tiles, lakes, rivers, dims, y0 as int, y - 1, x0 as int, x1 as int) =~= Seq::<TileDrawCommand>::empty());
            }
        }
        out
    }

    /// What to draw on the tile `(x, y)`.
    fn tile_draw_at(&self, x: i16, y: i16) -> (c: TileDrawCommand)
        ensures
            c == tile_draw(self.tiles(), self.lake_sprites(), self.river_sprites(), self.dims(), x as int, y as int),
    {
        proof {
            use_type_invariant(self);
        }
        if !self.is_tile_in_bounds(x, y) {
            return TileDrawCommand::OutOfBounds { x, y };
        }
        proof {
            lemma_index_in_grid(self.map_dimensions, x as int, y as int);
        }
        let tile_type = self.get_tile_from_x_y(x as u16, y as u16);
        let i = crate::utils::map_utils::cords_to_index(self.map_dimensions, MapCord::new(x, y));
        match tile_type {
            TileType::Grass => TileDrawCommand::Grass { x, y },
            TileType::Lake => {
                let d = self.lake_sprite_data[i].unwrap();
                let shore = if d.shore_animation_index != 0 {
                    Some(d.shore_animation_index - 1)
                } else {
                    None
                };
                let corner = if d.corner_animation_index != 0 {
                    Some(d.corner_animation_index - 1)
                } else {
                    None
                };
                TileDrawCommand::Lake { x, y, shore, corner }
            },
            TileType::River => TileDrawCommand::River { x, y, sprite: self.river_sprite_data[i].unwrap() },
        }
    }
}

/// What to draw on one tile: the out-of-map sprite, grass, lake water with
/// its shore and corner overlays (numbered from 0, when there are any), or
/// the river piece.
#[derive(Clone, Copy, Debug, PartialEq, Eq, Structural)]
pub enum TileDrawCommand {
    OutOfBounds { x: i16, y: i16 },
    Grass { x: i16, y: i16 },
    Lake { x: i16, y: i16, shore: Option<u8>, corner: Option<u8> },
    River { x: i16, y: i16, sprite: RiverSpriteData },
}

/// What to draw on the point `(x, y)`.
pub open spec fn tile_draw(
    tiles: Seq<TileType>,
    lakes: Seq<Option<LakeSpriteData>>,
    rivers: Seq<Option<RiverSpriteData>>,
    dims: MapDimensions,
    x: int,
    y: int,
) -> TileDrawCommand {
    if !in_bounds(dims, x, y) {
        TileDrawCommand::OutOfBounds { x: x as i16, y: y as i16 }
    } else {
        let i = tile_index(dims, x, y);
        match tiles[i] {
            TileType::Grass => TileDrawCommand::Grass { x: x as i16, y: y as i16 },
            TileType::Lake => {
                let d = lakes[i].unwrap();
                TileDrawCommand::Lake {
                    x: x as i16,
                    y: y as i16,
                    shore: if d.shore_animation_index != 0 {
                        Some((d.shore_animation_index - 1) as u8)
                    } else {
                        None
                    },
                    corner: if d.corner_animation_index != 0 {
                        Some((d.corner_animation_index - 1) as u8)
                    } else {
                        None
                    },
                }
            },
            TileType::River => TileDrawCommand::River { x: x as i16, y: y as i16, sprite: rivers[i].unwrap() },
        }
    }
}

/// The tiles `x0..=x1` of row `y`, left to right.
pub open spec fn tile_draws_row(
    tiles: Seq<TileType>,
    lakes: Seq<Option<LakeSpriteData>>,
    rivers: Seq<Option<RiverSpriteData>>,
    dims: MapDimensions,
    y: int,
    x0: int,
    x1: int,
) -> Seq<TileDrawCommand>
    decreases x1 - x0 + 1,
{
    if x1 < x0 {
        Seq::empty()
    } else {
        tile_draws_row(tiles, lakes, rivers, dims, y, x0, x1 - 1).push(tile_draw(tiles, lakes, rivers, dims, x1, y))
    }
}

/// The rows `y0..=y1` of the window, top to bottom.
pub open spec fn tile_draws(
    tiles: Seq<TileType>,
    lakes: Seq<Option<LakeSpriteData>>,
    rivers: Seq<Option<RiverSpriteData>>,
    dims: MapDimensions,
    y0: int,
    y1: int,
    x0: int,
    x1: int,
) -> Seq<TileDrawCommand>
    decreases y1 - y0 + 1,
{
    if y1 < y0 {
        Seq::empty()
    } else {
        tile_draws(tiles, lakes, rivers, dims, y0, y1 - 1, x0, x1) + tile_draws_row(tiles, lakes, rivers, dims, y1, x0, x1)
    }
}

} // verus!
