use gatherer_world::map::map_gen_functions::{
    add_river, first_river_without_sprite, create_lakes, rivers_have_valid_neighbors, set_lake_shore_and_corner_sprites,
    set_river_tile_animations, spawn_forests_around_lakes, spawn_grass_around_lakes, spawn_grass_around_rivers,
    spawn_standalone_forests, spawn_standalone_grass, spawn_standalone_trees,
};
use gatherer_world::map::tile::{LakeSpriteData, RiverSpriteData, RiverType, TileType};
use gatherer_world::map::tile_map::{MapDimensions, MapGenCounts, MapGenError, TileMap};
use gatherer_world::entities::object::{Object, ObjectKind};
use gatherer_world::utils::directional_deltas::Direction;
use gatherer_world::utils::map_cord::MapCord;

#[test]
fn lake_overlays_of_a_single_pond() {
    let dims = MapDimensions { width: 3, height: 3 };
    let mut grid = vec![TileType::Grass; 9];
    grid[4] = TileType::Lake;
    let sprites = set_lake_shore_and_corner_sprites(&grid, dims);
    assert_eq!(sprites.len(), 9);
    assert_eq!(sprites[4], Some(LakeSpriteData { shore_animation_index: 15, corner_animation_index: 0 }));
    for i in [0, 1, 2, 3, 5, 6, 7, 8] {
        assert_eq!(sprites[i], None);
    }
}

#[test]
fn lake_overlays_with_an_inner_corner() {
    let dims = MapDimensions { width: 2, height: 2 };
    let grid = vec![TileType::Lake, TileType::Lake, TileType::Lake, TileType::Grass];
    let sprites = set_lake_shore_and_corner_sprites(&grid, dims);
    assert_eq!(sprites[0], Some(LakeSpriteData { shore_animation_index: 0, corner_animation_index: 4 }));
    assert_eq!(sprites[1], Some(LakeSpriteData { shore_animation_index: 4, corner_animation_index: 0 }));
    assert_eq!(sprites[2], Some(LakeSpriteData { shore_animation_index: 2, corner_animation_index: 0 }));
    assert_eq!(sprites[3], None);
}

#[test]
fn lake_overlays_of_a_full_lake() {
    let dims = MapDimensions { width: 3, height: 3 };
    let grid = vec![TileType::Lake; 9];
    let sprites = set_lake_shore_and_corner_sprites(&grid, dims);
    for s in sprites {
        assert_eq!(s, Some(LakeSpriteData { shore_animation_index: 0, corner_animation_index: 0 }));
    }
}

fn vertical_river() -> (Vec<TileType>, Vec<Option<Direction>>, MapDimensions) {
    let dims = MapDimensions { width: 5, height: 5 };
    let mut grid = vec![TileType::Grass; 25];
    let mut rivers: Vec<Option<Direction>> = vec![None; 25];
    let river: Vec<(MapCord, Direction)> = (0..5).map(|y| (MapCord::new(2, y), Direction::South)).collect();
    add_river(&river, &mut rivers, &mut grid, dims);
    (grid, rivers, dims)
}

#[test]
fn add_river_marks_its_tiles() {
    let (grid, rivers, _) = vertical_river();
    for y in 0..5usize {
        assert_eq!(grid[y * 5 + 2], TileType::River);
        assert_eq!(rivers[y * 5 + 2], Some(Direction::South));
    }
    assert_eq!(grid.iter().filter(|t| **t == TileType::River).count(), 5);
    assert_eq!(rivers.iter().filter(|r| r.is_some()).count(), 5);
}

#[test]
fn river_sprites_of_a_straight_river() {
    let (grid, rivers, dims) = vertical_river();
    assert!(rivers_have_valid_neighbors(&rivers, &grid, dims));
    let sprites = set_river_tile_animations(&rivers, &grid, dims);
    assert_eq!(sprites.len(), 25);
    assert_eq!(sprites[2 * 5 + 2], Some(RiverSpriteData { river_type: RiverType::Straight, river_sprite_index: 2 }));
    assert_eq!(sprites[2], Some(RiverSpriteData { river_type: RiverType::Outlet, river_sprite_index: 2 }));
    assert_eq!(sprites[4 * 5 + 2], Some(RiverSpriteData { river_type: RiverType::Straight, river_sprite_index: 2 }));
    assert_eq!(sprites[0], None);
}

#[test]
fn river_flowing_into_a_lake_ends_in_an_inlet() {
    let dims = MapDimensions { width: 3, height: 3 };
    let mut grid = vec![TileType::Grass; 9];
    grid[2 * 3 + 1] = TileType::Lake;
    let mut rivers: Vec<Option<Direction>> = vec![None; 9];
    let river = vec![(MapCord::new(1, 0), Direction::South), (MapCord::new(1, 1), Direction::South)];
    add_river(&river, &mut rivers, &mut grid, dims);
    let sprites = set_river_tile_animations(&rivers, &grid, dims);
    assert_eq!(sprites[4], Some(RiverSpriteData { river_type: RiverType::Inlet, river_sprite_index: 0 }));
}

#[test]
fn river_corner_and_isolated_tile() {
    let dims = MapDimensions { width: 3, height: 3 };
    let mut grid = vec![TileType::Grass; 9];
    let mut rivers: Vec<Option<Direction>> = vec![None; 9];
    let river = vec![
        (MapCord::new(0, 1), Direction::East),
        (MapCord::new(1, 1), Direction::South),
        (MapCord::new(1, 2), Direction::South),
    ];
    add_river(&river, &mut rivers, &mut grid, dims);
    let sprites = set_river_tile_animations(&rivers, &grid, dims);
    assert_eq!(sprites[4].unwrap().river_type, RiverType::Corner);
    let mut lonely_grid = vec![TileType::Grass; 9];
    let mut lonely: Vec<Option<Direction>> = vec![None; 9];
    add_river(&vec![(MapCord::new(1, 1), Direction::North)], &mut lonely, &mut lonely_grid, dims);
    assert!(!rivers_have_valid_neighbors(&lonely, &lonely_grid, dims));
}

#[test]
fn lakes_only_turn_grass_into_lake() {
    let dims = MapDimensions { width: 40, height: 40 };
    let mut grid = vec![TileType::Grass; 1600];
    let mut rng = rand::rng();
    let (forest, grass) = create_lakes(&mut grid, dims, 3, &mut rng);
    assert!(grid.iter().all(|t| *t == TileType::Grass || *t == TileType::Lake));
    for c in forest.iter().chain(grass.iter()) {
        assert_eq!(grid[c.y as usize * 40 + c.x as usize], TileType::Lake);
    }
    let mut untouched = vec![TileType::Grass; 1600];
    let (f0, g0) = create_lakes(&mut untouched, dims, 0, &mut rng);
    assert!(f0.is_empty() && g0.is_empty());
    assert!(untouched.iter().all(|t| *t == TileType::Grass));
}

#[test]
fn standalone_objects_stand_on_free_grass() {
    let dims = MapDimensions { width: 10, height: 10 };
    let mut grid = vec![TileType::Grass; 100];
    for i in 0..50 {
        grid[i] = TileType::Lake;
    }
    let mut objects: Vec<Option<ObjectKind>> = vec![None; 100];
    let mut rng = rand::rng();
    spawn_standalone_trees(&grid, &mut objects, dims, 9, &mut rng);
    spawn_standalone_grass(&grid, &mut objects, dims, 9, &mut rng);
    for i in 0..100 {
        if objects[i].is_some() {
            assert_eq!(grid[i], TileType::Grass);
        }
    }
    assert!(objects.iter().any(|o| *o == Some(ObjectKind::Tree)));
}

#[test]
fn generated_map_without_lakes_is_all_grass() {
    let mut rng = rand::rng();
    let counts = MapGenCounts { lake_cycles: 0, standalone_trees: -1, standalone_grass: -1 };
    let map = TileMap::generate_map(20, 20, counts, &mut rng).ok().unwrap();
    assert_eq!(map.dimensions(), MapDimensions { width: 20, height: 20 });
    assert!(map.map_tile_grid().iter().all(|t| *t == TileType::Grass));
    for i in 0..400 {
        assert_eq!(map.lake_sprite_at(i), None);
        assert_eq!(map.river_sprite_at(i), None);
    }
    let objects = map.map_object_grid();
    assert_eq!(objects.len(), 400);
    for i in 0..400 {
        match (objects[i], map.object_kind_at(i)) {
            (Object::NoObject, None) => {}
            (Object::TreeObj(d), Some(ObjectKind::Tree)) | (Object::GrassObj(d), Some(ObjectKind::Grass)) => {
                assert!(!d.is_marked_for_gathering && !d.is_occupied && !d.is_selected && !d.is_hovering);
            }
            _ => panic!("object grid does not match the placed kinds"),
        }
    }
}

#[test]
fn generated_map_keeps_its_invariants() {
    let mut rng = rand::rng();
    let counts = MapGenCounts { lake_cycles: 4, standalone_trees: 20, standalone_grass: 20 };
    for _ in 0..5 {
        if let Ok(map) = TileMap::generate_map(60, 50, counts, &mut rng) {
            let tiles = map.map_tile_grid();
            assert_eq!(tiles.len(), 3000);
            for i in 0..3000 {
                if tiles[i] == TileType::Lake {
                    assert!(map.lake_sprite_at(i).is_some());
                }
                assert_eq!(tiles[i] == TileType::River, map.river_sprite_at(i).is_some());
                if map.object_kind_at(i).is_some() {
                    assert_eq!(tiles[i], TileType::Grass);
                }
            }
            assert_eq!(map.get_tile_from_x_y(3, 4), tiles[4 * 60 + 3]);
            assert!(map.is_tile_in_bounds(59, 49));
            assert!(!map.is_tile_in_bounds(60, 0));
        }
    }
}

use gatherer_world::map::tile_map::TileDrawCommand;

#[test]
fn tile_draw_commands_cover_the_window() {
    let mut rng = rand::rng();
    let counts = MapGenCounts { lake_cycles: 0, standalone_trees: -1, standalone_grass: -1 };
    let map = TileMap::generate_map(4, 3, counts, &mut rng).ok().unwrap();
    let cmds = map.draw(-1, 2, 1, 3);
    assert_eq!(
        cmds,
        vec![
            TileDrawCommand::OutOfBounds { x: -1, y: 2 },
            TileDrawCommand::Grass { x: 0, y: 2 },
            TileDrawCommand::Grass { x: 1, y: 2 },
            TileDrawCommand::OutOfBounds { x: -1, y: 3 },
            TileDrawCommand::OutOfBounds { x: 0, y: 3 },
            TileDrawCommand::OutOfBounds { x: 1, y: 3 },
        ]
    );
    assert!(map.draw(2, 0, 1, 0).is_empty());
}

#[test]
fn tile_draw_commands_of_lakes_and_rivers() {
    let mut rng = rand::rng();
    let counts = MapGenCounts { lake_cycles: 6, standalone_trees: -1, standalone_grass: -1 };
    for _ in 0..5 {
        if let Ok(map) = TileMap::generate_map(40, 40, counts, &mut rng) {
            let cmds = map.draw(0, 0, 39, 39);
            assert_eq!(cmds.len(), 1600);
            let tiles = map.map_tile_grid();
            for (i, c) in cmds.iter().enumerate() {
                match (*c, tiles[i]) {
                    (TileDrawCommand::Grass { .. }, TileType::Grass) => {}
                    (TileDrawCommand::Lake { shore, corner, .. }, TileType::Lake) => {
                        let d = map.lake_sprite_at(i).unwrap();
                        assert_eq!(shore, d.shore_animation_index.checked_sub(1));
                        assert_eq!(corner, d.corner_animation_index.checked_sub(1));
                    }
                    (TileDrawCommand::River { sprite, .. }, TileType::River) => {
                        assert_eq!(Some(sprite), map.river_sprite_at(i));
                    }
                    _ => panic!("draw command does not fit the tile"),
                }
            }
        }
    }
}

#[test]
fn standalone_spawns_place_the_asked_number() {
    let dims = MapDimensions { width: 10, height: 10 };
    let mut grid = vec![TileType::Grass; 100];
    for i in 0..50 {
        grid[i] = TileType::Lake;
    }
    let mut rng = rand::rng();
    let mut objects: Vec<Option<ObjectKind>> = vec![None; 100];
    spawn_standalone_trees(&grid, &mut objects, dims, 9, &mut rng);
    assert_eq!(objects.iter().filter(|o| o.is_some()).count(), 10);
    spawn_standalone_grass(&grid, &mut objects, dims, 99, &mut rng);
    assert_eq!(objects.iter().filter(|o| **o == Some(ObjectKind::Grass)).count(), 40);
    assert_eq!(objects.iter().filter(|o| **o == Some(ObjectKind::Tree)).count(), 10);
    let mut none: Vec<Option<ObjectKind>> = vec![None; 100];
    spawn_standalone_trees(&grid, &mut none, dims, -1, &mut rng);
    assert!(none.iter().all(|o| o.is_none()));
}

#[test]
fn every_lake_cycle_leaves_a_lake() {
    let dims = MapDimensions { width: 30, height: 20 };
    let mut rng = rand::rng();
    for _ in 0..10 {
        let mut grid = vec![TileType::Grass; 600];
        let (forest, grass) = create_lakes(&mut grid, dims, 1, &mut rng);
        assert!(grid.iter().any(|t| *t == TileType::Lake));
        assert!(forest.len() <= 100 && grass.len() <= 100);
    }
}

#[test]
fn standalone_forests_plant_at_least_one_tree() {
    let dims = MapDimensions { width: 12, height: 9 };
    let grid = vec![TileType::Grass; 108];
    let mut rng = rand::rng();
    for _ in 0..10 {
        let mut objects: Vec<Option<ObjectKind>> = vec![None; 108];
        spawn_standalone_forests(&grid, &mut objects, dims, &mut rng);
        assert!(objects.iter().any(|o| *o == Some(ObjectKind::Tree)));
        assert!(objects.iter().all(|o| o.is_none() || *o == Some(ObjectKind::Tree)));
    }
}

#[test]
fn add_river_records_each_listed_direction() {
    let dims = MapDimensions { width: 4, height: 4 };
    let mut grid = vec![TileType::Grass; 16];
    let mut rivers: Vec<Option<Direction>> = vec![None; 16];
    rivers[15] = Some(Direction::West);
    grid[15] = TileType::River;
    let river = vec![
        (MapCord::new(0, 0), Direction::East),
        (MapCord::new(1, 0), Direction::East),
        (MapCord::new(1, 1), Direction::South),
        (MapCord::new(1, 0), Direction::North),
    ];
    add_river(&river, &mut rivers, &mut grid, dims);
    assert_eq!(rivers[0], Some(Direction::East));
    assert_eq!(rivers[1], Some(Direction::North));
    assert_eq!(rivers[5], Some(Direction::South));
    assert_eq!(rivers[15], Some(Direction::West));
    assert_eq!(rivers.iter().filter(|r| r.is_some()).count(), 4);
    assert_eq!(grid.iter().filter(|t| **t == TileType::River).count(), 4);
}

#[test]
fn lake_lists_hold_no_coordinate_twice() {
    let dims = MapDimensions { width: 40, height: 40 };
    let mut rng = rand::rng();
    for _ in 0..5 {
        let mut grid = vec![TileType::Grass; 1600];
        let (forest, grass) = create_lakes(&mut grid, dims, 6, &mut rng);
        for list in [&forest, &grass] {
            for i in 0..list.len() {
                for j in i + 1..list.len() {
                    assert_ne!(list[i], list[j]);
                }
            }
        }
    }
}

fn on_a_line_within(i: usize, width: usize, ox: usize, oy: usize, reach: usize) -> bool {
    let (x, y) = (i % width, i / width);
    (x == ox && y.abs_diff(oy) <= reach) || (y == oy && x.abs_diff(ox) <= reach)
}

#[test]
fn lake_spawns_stay_in_reach_of_their_lake() {
    let dims = MapDimensions { width: 60, height: 60 };
    let grid = vec![TileType::Grass; 3600];
    let mut rng = rand::rng();
    for _ in 0..5 {
        let mut trees: Vec<Option<ObjectKind>> = vec![None; 3600];
        spawn_forests_around_lakes(&grid, &mut trees, vec![MapCord::new(30, 30)], dims, &mut rng);
        for i in 0..3600 {
            if trees[i].is_some() {
                assert!(on_a_line_within(i, 60, 30, 30, 10));
            }
        }
        let mut grass: Vec<Option<ObjectKind>> = vec![None; 3600];
        spawn_grass_around_lakes(&grid, &mut grass, vec![MapCord::new(30, 30)], dims, &mut rng);
        for i in 0..3600 {
            if grass[i].is_some() {
                assert!(on_a_line_within(i, 60, 30, 30, 22));
            }
        }
    }
}

#[test]
fn river_grass_stays_in_reach_of_the_river() {
    let dims = MapDimensions { width: 30, height: 30 };
    let grid = vec![TileType::Grass; 900];
    let mut sprites: Vec<Option<RiverSpriteData>> = vec![None; 900];
    sprites[15 * 30 + 15] = Some(RiverSpriteData { river_type: RiverType::Straight, river_sprite_index: 0 });
    let mut rng = rand::rng();
    for _ in 0..5 {
        let mut grass: Vec<Option<ObjectKind>> = vec![None; 900];
        spawn_grass_around_rivers(&grid, &mut grass, &sprites, dims, &mut rng);
        for i in 0..900 {
            if grass[i].is_some() {
                assert!(on_a_line_within(i, 30, 15, 15, 8));
            }
        }
    }
}

#[test]
fn failed_generations_name_a_river_tile_without_sprite() {
    let mut rng = rand::rng();
    let counts = MapGenCounts { lake_cycles: 6, standalone_trees: 5, standalone_grass: 5 };
    for _ in 0..10 {
        match TileMap::generate_map(50, 50, counts, &mut rng) {
            Ok(map) => assert_eq!(map.dimensions(), MapDimensions { width: 50, height: 50 }),
            Err(MapGenError::RiverWithoutSprite { at, tiles, rivers }) => {
                let (x, y) = (at.x as i32, at.y as i32);
                assert!(rivers[(y * 50 + x) as usize].is_some());
                let mut sides = 0;
                for (dx, dy) in [(0, -1), (1, 0), (0, 1), (-1, 0)] {
                    let (nx, ny) = (x + dx, y + dy);
                    if nx >= 0 && ny >= 0 && nx < 50 && ny < 50 && tiles[(ny * 50 + nx) as usize] == TileType::River {
                        sides += 1;
                    }
                }
                assert!(sides == 0 || sides == 4);
            }
        }
    }
}

#[test]
fn first_river_without_sprite_finds_the_lonely_tile() {
    let dims = MapDimensions { width: 3, height: 3 };
    let mut grid = vec![TileType::Grass; 9];
    grid[4] = TileType::River;
    let mut rivers: Vec<Option<Direction>> = vec![None; 9];
    rivers[4] = Some(Direction::North);
    assert_eq!(first_river_without_sprite(&rivers, &grid, dims), Some(MapCord::new(1, 1)));
    grid[1] = TileType::River;
    rivers[1] = Some(Direction::North);
    assert_eq!(first_river_without_sprite(&rivers, &grid, dims), None);
}
