pub mod map_cell;
pub mod tile;
pub mod tile_map;
pub mod map_gen_functions;
