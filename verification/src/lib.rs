//! Tile-world logic of a small colony game: map coordinates and directions,
//! the tile grid and its spatial cells, procedural map generation (lakes,
//! shores, rivers, forests and grass), A* path finding over the grass tiles,
//! objects and the gatherers that work them, the character list with its
//! drawing order and selection, drag selection, action buttons, light ids
//! and zoom levels.

pub mod map;
pub mod systems;
pub mod utils;
pub mod zoom_sizes;
pub mod entities;
