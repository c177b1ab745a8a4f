pub mod gatherer;
pub mod enemy;
pub mod enemies;
