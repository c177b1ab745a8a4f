pub mod directional_deltas;
pub mod map_cord;
pub mod map_utils;
pub mod rng;
pub mod pathfinding;
pub mod entity_utils;
pub mod array_utils;
pub mod vector2_utils;
pub mod draws;
