pub mod grass;
pub mod tree;
