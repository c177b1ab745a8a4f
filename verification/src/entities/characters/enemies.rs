pub mod slime;
