use gatherer_world::entities::object::ObjectKind;
use gatherer_world::map::map_gen_functions::{
    create_lakes_with, create_rivers_with, grow_forests, set_lake_shore_and_corner_sprites,
    spawn_forests_around_lakes_with, spawn_grass_around_lakes_with,
};
use gatherer_world::map::tile::TileType;
use gatherer_world::map::tile_map::{MapDimensions, MapGenCounts, TileMap};
use gatherer_world::utils::array_utils::shuffle_vec_with;
use gatherer_world::utils::directional_deltas::Direction;
use gatherer_world::utils::draws::{Draw, DrawSource, ListedDraws};
use gatherer_world::utils::map_cord::MapCord;

fn flip(numerator: u32, denominator: u32, outcome: bool) -> Draw {
    Draw::Flip { numerator, denominator, outcome }
}

fn pick(lo: usize, hi: usize, value: usize) -> Draw {
    Draw::PickUsize { lo, hi, value }
}

#[test]
fn listed_draws_answer_in_order_then_fall_back() {
    let mut draws = ListedDraws::new(vec![flip(1, 2, true), pick(3, 9, 7), pick(3, 9, 12)]);
    assert!(draws.chance(1, 2));
    assert_eq!(draws.pick_usize(3, 9), 7);
    // Out of range: the lower bound.
    assert_eq!(draws.pick_usize(3, 9), 3);
    // Used up: chances come out false, picks are the lower bound.
    assert!(!draws.chance(1, 2));
    assert_eq!(draws.pick_i32(-4, 4), -4);
    // A sure chance is always true.
    assert!(draws.chance(5, 5));
}

#[test]
fn a_lake_of_one_tile_when_no_side_is_queued() {
    let dims = MapDimensions { width: 3, height: 3 };
    let mut grid = vec![TileType::Grass; 9];
    let mut draws = ListedDraws::new(vec![
        flip(3, 100, true),
        flip(1, 4, false),
        pick(0, 2, 1),
        pick(0, 2, 1),
        pick(60, 100, 60),
        flip(4, 5, false),
        flip(4, 5, false),
        flip(4, 5, false),
        flip(4, 5, false),
    ]);
    let (trees, grass) = create_lakes_with(&mut grid, dims, 1, &mut draws);
    assert_eq!(trees, vec![MapCord { x: 1, y: 1 }]);
    assert!(grass.is_empty());
    for i in 0..9 {
        let expected = if i == 4 { TileType::Lake } else { TileType::Grass };
        assert_eq!(grid[i], expected);
    }
}

#[test]
fn a_lake_spreads_to_the_queued_sides_in_order() {
    let dims = MapDimensions { width: 3, height: 3 };
    let mut grid = vec![TileType::Grass; 9];
    let mut draws = ListedDraws::new(vec![
        flip(3, 100, false),
        flip(1, 4, true),
        pick(0, 2, 1),
        pick(0, 2, 1),
        pick(60, 100, 75),
        // the centre queues its north and west sides
        flip(4, 5, true),
        flip(4, 5, false),
        flip(4, 5, false),
        flip(4, 5, true),
        // the north tile queues its north side, which is off the map
        flip(4, 5, true),
        flip(4, 5, false),
        flip(4, 5, false),
        flip(4, 5, false),
    ]);
    let (trees, grass) = create_lakes_with(&mut grid, dims, 1, &mut draws);
    assert!(trees.is_empty());
    assert_eq!(grass, vec![MapCord { x: 1, y: 1 }, MapCord { x: 1, y: 0 }, MapCord { x: 0, y: 1 }]);
    for i in 0..9 {
        let expected = if i == 4 || i == 1 || i == 3 { TileType::Lake } else { TileType::Grass };
        assert_eq!(grid[i], expected);
    }
}

#[test]
fn no_lake_cycles_draw_nothing() {
    let dims = MapDimensions { width: 2, height: 2 };
    let mut grid = vec![TileType::Grass; 4];
    let mut draws = ListedDraws::new(vec![]);
    let (trees, grass) = create_lakes_with(&mut grid, dims, 0, &mut draws);
    assert!(trees.is_empty() && grass.is_empty());
    assert_eq!(grid, vec![TileType::Grass; 4]);
    assert_eq!(draws.next, 0);
}

#[test]
fn a_river_leaves_its_lake_and_runs_to_the_edge() {
    let dims = MapDimensions { width: 1, height: 3 };
    let mut grid = vec![TileType::Lake, TileType::Grass, TileType::Grass];
    let lake_data = set_lake_shore_and_corner_sprites(&grid, dims);
    let mut draws = ListedDraws::new(vec![flip(52, 1000, true)]);
    let rivers = create_rivers_with(&mut grid, &lake_data, dims, &mut draws);
    // The lake tile the river leaves from becomes its first river tile.
    assert_eq!(grid, vec![TileType::River, TileType::River, TileType::River]);
    assert_eq!(rivers, vec![Some(Direction::South), Some(Direction::South), Some(Direction::South)]);
}

#[test]
fn no_river_when_the_lake_draw_fails() {
    let dims = MapDimensions { width: 1, height: 3 };
    let mut grid = vec![TileType::Lake, TileType::Grass, TileType::Grass];
    let lake_data = set_lake_shore_and_corner_sprites(&grid, dims);
    let mut draws = ListedDraws::new(vec![flip(52, 1000, false)]);
    let rivers = create_rivers_with(&mut grid, &lake_data, dims, &mut draws);
    assert_eq!(grid, vec![TileType::Lake, TileType::Grass, TileType::Grass]);
    assert_eq!(rivers, vec![None, None, None]);
}

#[test]
fn a_forest_grows_column_by_column() {
    let dims = MapDimensions { width: 5, height: 5 };
    let tiles = vec![TileType::Grass; 25];
    let mut objects = vec![None; 25];
    let mut draws = ListedDraws::new(vec![
        pick(0, 0, 0),
        // east-west line of columns running south, starting at (1, 1)
        flip(1, 2, false),
        flip(1, 2, false),
        flip(1, 2, true),
        pick(0, 4, 1),
        pick(0, 4, 1),
        // no drift; the height grows to 2
        flip(1, 2, false),
        flip(1, 5, true),
        flip(1, 20, false),
        // no drift; the height falls back to 1
        flip(1, 2, false),
        flip(1, 5, false),
        flip(1, 20, true),
        // no drift; the height falls to 0 and the forest ends
        flip(1, 2, false),
        flip(1, 5, false),
        flip(1, 20, true),
    ]);
    grow_forests(&tiles, &mut objects, dims, &mut draws);
    for i in 0..25 {
        let expected = if i == 6 || i == 7 || i == 12 || i == 8 { Some(ObjectKind::Tree) } else { None };
        assert_eq!(objects[i], expected, "tile {}", i);
    }
}

#[test]
fn generated_map_with_one_pond_and_no_river() {
    let counts = MapGenCounts { lake_cycles: 1, standalone_trees: -1, standalone_grass: -1 };
    let mut draws = ListedDraws::new(vec![
        flip(3, 100, false),
        flip(1, 4, false),
        pick(0, 4, 2),
        pick(0, 4, 2),
        pick(60, 100, 60),
    ]);
    let map = match TileMap::generate_map_with(5, 5, counts, &mut draws) {
        Ok(m) => m,
        Err(_) => panic!("a pond has no river"),
    };
    let tiles = map.map_tile_grid();
    for i in 0..25 {
        let expected = if i == 12 { TileType::Lake } else { TileType::Grass };
        assert_eq!(tiles[i], expected);
    }
}

#[test]
fn trees_around_a_lake_tile_follow_the_draws() {
    let dims = MapDimensions { width: 3, height: 3 };
    let tiles = vec![TileType::Grass; 9];
    let mut objects = vec![None; 9];
    let mut draws = ListedDraws::new(vec![
        Draw::PickI32 { lo: 1, hi: 10, value: 1 },
        // north: the tile itself, then one step
        flip(1, 10, false),
        flip(1, 10, true),
        // east
        flip(1, 10, true),
        flip(1, 10, false),
        // south: the tile itself already holds a tree
        flip(1, 10, true),
        flip(1, 10, false),
        // west
        flip(1, 10, false),
        flip(1, 10, true),
    ]);
    spawn_forests_around_lakes_with(&tiles, &mut objects, vec![MapCord { x: 1, y: 1 }], dims, &mut draws);
    for i in 0..9 {
        let expected = if i == 1 || i == 3 || i == 4 { Some(ObjectKind::Tree) } else { None };
        assert_eq!(objects[i], expected, "tile {}", i);
    }
}

#[test]
fn grass_around_a_lake_tile_follows_the_draws() {
    let dims = MapDimensions { width: 3, height: 3 };
    let tiles = vec![TileType::Grass; 9];
    let mut objects = vec![None; 9];
    let mut draws = ListedDraws::new(vec![
        Draw::PickI32 { lo: 3, hi: 17, value: 3 },
        flip(3, 5, false),
        // north, 1 to 3 steps
        flip(1, 10, false),
        flip(1, 10, false),
        flip(1, 10, false),
        // east
        flip(1, 10, true),
        flip(1, 10, false),
        flip(1, 10, false),
        // south
        flip(1, 10, true),
    ]);
    spawn_grass_around_lakes_with(&tiles, &mut objects, vec![MapCord { x: 1, y: 1 }], dims, &mut draws);
    for i in 0..9 {
        let expected = if i == 5 || i == 7 { Some(ObjectKind::Grass) } else { None };
        assert_eq!(objects[i], expected, "tile {}", i);
    }
}

#[test]
fn a_shuffle_follows_its_draws() {
    let v = vec![10, 20, 30];
    let mut draws = ListedDraws::new(vec![pick(0, 2, 0), pick(0, 1, 1), pick(0, 0, 0)]);
    assert_eq!(shuffle_vec_with(&v, &mut draws), vec![30, 20, 10]);
    let mut draws = ListedDraws::new(vec![pick(0, 2, 2), pick(0, 1, 0)]);
    assert_eq!(shuffle_vec_with(&v, &mut draws), vec![20, 10, 30]);
}

#[test]
fn generated_objects_follow_the_draws() {
    // With no draws listed every chance fails and every pick is its lower
    // bound: one forest starting at (0, 0) whose columns of height 1 run
    // south, so the first column of the map is all trees.
    let counts = MapGenCounts { lake_cycles: 0, standalone_trees: -1, standalone_grass: -1 };
    let mut draws = ListedDraws::new(vec![]);
    let map = match TileMap::generate_map_with(4, 4, counts, &mut draws) {
        Ok(m) => m,
        Err(_) => panic!("a map without lakes has no river"),
    };
    for i in 0..16 {
        let expected = if i % 4 == 0 { Some(ObjectKind::Tree) } else { None };
        assert_eq!(map.object_kind_at(i), expected, "tile {}", i);
    }
}

use gatherer_world::entities::objects::grass::{
    large_likely_level_with, random_level_with, small_likely_level_with, GrassType,
};
use gatherer_world::entities::objects::tree::{random_flip_with, random_hit_offset_with, TreeVariant};

#[test]
fn grass_levels_follow_their_draws() {
    let mut draws = ListedDraws::new(vec![pick(0, 2, 1)]);
    assert_eq!(random_level_with(&mut draws), 1);

    // small-likely: the first chance gives 0, else the second gives 1, else 2
    let mut draws = ListedDraws::new(vec![flip(9, 10, true)]);
    assert_eq!(small_likely_level_with(&mut draws), 0);
    assert_eq!(draws.next, 1);
    let mut draws = ListedDraws::new(vec![flip(9, 10, false), flip(4, 5, true)]);
    assert_eq!(small_likely_level_with(&mut draws), 1);
    let mut draws = ListedDraws::new(vec![flip(9, 10, false), flip(4, 5, false)]);
    assert_eq!(small_likely_level_with(&mut draws), 2);

    // large-likely: the first chance gives 2, else the second gives 1, else 0
    let mut draws = ListedDraws::new(vec![flip(9, 10, true)]);
    assert_eq!(large_likely_level_with(&mut draws), 2);
    let mut draws = ListedDraws::new(vec![flip(9, 10, false), flip(4, 5, true)]);
    assert_eq!(large_likely_level_with(&mut draws), 1);
    let mut draws = ListedDraws::new(vec![flip(9, 10, false), flip(4, 5, false)]);
    assert_eq!(large_likely_level_with(&mut draws), 0);
    assert_eq!(draws.next, 2);
}

#[test]
fn grass_types_follow_their_draws() {
    let types = [GrassType::Wheaty, GrassType::Flowery, GrassType::Bushy, GrassType::Stalky];
    for k in 0..4 {
        let mut draws = ListedDraws::new(vec![pick(0, 3, k)]);
        assert_eq!(GrassType::random_type_with(&mut draws), types[k]);
    }
}

#[test]
fn tree_looks_and_hits_follow_their_draws() {
    let mut draws = ListedDraws::new(vec![Draw::PickI32 { lo: 0, hi: 1, value: 0 }]);
    assert_eq!(TreeVariant::random_variant_with(&mut draws), TreeVariant::One);
    let mut draws = ListedDraws::new(vec![Draw::PickI32 { lo: 0, hi: 1, value: 1 }]);
    assert_eq!(TreeVariant::random_variant_with(&mut draws), TreeVariant::Two);

    let mut draws = ListedDraws::new(vec![flip(1, 2, true), flip(1, 2, false)]);
    assert!(random_flip_with(&mut draws));
    assert!(!random_flip_with(&mut draws));

    let mut draws = ListedDraws::new(vec![flip(1, 2, true), flip(1, 2, false)]);
    assert_eq!(random_hit_offset_with(&mut draws), 1);
    assert_eq!(random_hit_offset_with(&mut draws), -1);
}
