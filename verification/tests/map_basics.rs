use gatherer_world::map::map_cell::MapCell;
use gatherer_world::map::map_gen_functions::generate_cell_grid;
use gatherer_world::map::tile::TileType;
use gatherer_world::map::tile_map::MapDimensions;
use gatherer_world::utils::map_cord::MapCord;
use gatherer_world::utils::map_utils::{
    cords_to_index, get_cell_at_cord, get_tile_at_cord, get_tile_from_x_y, is_tile_in_bounds,
};
use gatherer_world::zoom_sizes::ZoomSizes;

#[test]
fn map_cord_arithmetic() {
    let a = MapCord::new(3, -2);
    let b = MapCord::new(-1, 5);
    assert_eq!(a.plus(b), MapCord::new(2, 3));
    assert_eq!(a.minus(b), MapCord::new(4, -7));
    assert_eq!(a.times(3), MapCord::new(9, -6));
    assert_eq!(MapCord::new(7, 8).x, 7);
    assert_eq!(MapCord::new(7, 8).y, 8);
}

#[test]
fn total_tiles_is_area() {
    assert_eq!(MapDimensions { width: 10, height: 4 }.total_tiles(), 40);
    assert_eq!(MapDimensions { width: 0, height: 4 }.total_tiles(), 0);
}

#[test]
fn tile_lookup_and_indices() {
    let dims = MapDimensions { width: 4, height: 3 };
    let mut grid = vec![TileType::Grass; 12];
    grid[2 * 4 + 1] = TileType::Lake;
    grid[3] = TileType::River;
    assert_eq!(cords_to_index(dims, MapCord::new(1, 2)), 9);
    assert_eq!(cords_to_index(dims, MapCord::new(0, 0)), 0);
    assert_eq!(get_tile_from_x_y(&grid, dims, 1, 2), TileType::Lake);
    assert_eq!(get_tile_at_cord(&grid, dims, MapCord::new(3, 0)), TileType::River);
    assert_eq!(get_tile_at_cord(&grid, dims, MapCord::new(0, 1)), TileType::Grass);
}

#[test]
fn bounds_at_the_edges() {
    let dims = MapDimensions { width: 4, height: 3 };
    assert!(is_tile_in_bounds(dims, MapCord::new(0, 0)));
    assert!(is_tile_in_bounds(dims, MapCord::new(3, 2)));
    assert!(!is_tile_in_bounds(dims, MapCord::new(4, 2)));
    assert!(!is_tile_in_bounds(dims, MapCord::new(3, 3)));
    assert!(!is_tile_in_bounds(dims, MapCord::new(-1, 0)));
    assert!(!is_tile_in_bounds(dims, MapCord::new(0, -1)));
}

#[test]
fn cell_grid_and_cell_lookup() {
    let dims = MapDimensions { width: 120, height: 100 };
    let mut cells = generate_cell_grid(dims);
    assert_eq!(cells.len(), 4);
    assert!(cells.iter().all(|c| c.chars_in_cell.is_empty()));
    {
        let cell = get_cell_at_cord(&mut cells, dims, MapCord::new(60, 10)).unwrap();
        cell.add_char(7);
        cell.add_char(9);
    }
    assert_eq!(cells[1].chars_in_cell, vec![7, 9]);
    assert!(get_cell_at_cord(&mut cells, dims, MapCord::new(120, 10)).is_none());
    assert!(get_cell_at_cord(&mut cells, dims, MapCord::new(5, -1)).is_none());
    let cell = get_cell_at_cord(&mut cells, dims, MapCord::new(99, 99)).unwrap();
    cell.add_char(1);
    assert_eq!(cells[3].chars_in_cell, vec![1]);
    cells[1].clear_chars();
    assert!(cells[1].chars_in_cell.is_empty());
}

#[test]
fn map_cell_basics() {
    let mut c = MapCell::new();
    assert!(c.chars_in_cell.is_empty());
    c.add_char(3);
    assert_eq!(c.chars_in_cell, vec![3]);
    c.clear_chars();
    assert!(c.chars_in_cell.is_empty());
}

#[test]
fn zoom_levels() {
    assert_eq!(ZoomSizes::TwoX.change_res(true), ZoomSizes::TwoX);
    assert_eq!(ZoomSizes::TwoX.change_res(false), ZoomSizes::ThreeX);
    assert_eq!(ZoomSizes::FourX.change_res(true), ZoomSizes::ThreeX);
    assert_eq!(ZoomSizes::SixX.change_res(false), ZoomSizes::SixX);
    assert_eq!(ZoomSizes::get_zoom_from_index(0), ZoomSizes::TwoX);
    assert_eq!(ZoomSizes::get_zoom_from_index(3), ZoomSizes::FiveX);
    assert_eq!(ZoomSizes::get_zoom_from_index(7), ZoomSizes::SixX);
    assert_eq!(ZoomSizes::FourX.v_width(1920), 480);
    assert_eq!(ZoomSizes::ThreeX.v_height(1080), 360);
    assert_eq!(ZoomSizes::FiveX.zoom(), 5);
    assert_eq!(ZoomSizes::TwoX.zoom(), 2);
}

#[test]
fn zoom_round_trip() {
    for z in [ZoomSizes::ThreeX, ZoomSizes::FourX, ZoomSizes::FiveX, ZoomSizes::SixX] {
        assert_eq!(z.change_res(true).change_res(false), z);
    }
    for z in [ZoomSizes::TwoX, ZoomSizes::ThreeX, ZoomSizes::FourX, ZoomSizes::FiveX] {
        assert_eq!(z.change_res(false).change_res(true), z);
    }
}
