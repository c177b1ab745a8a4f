pub mod object;
pub mod character;
pub mod characters;
pub mod entity_manager;
pub mod objects;
