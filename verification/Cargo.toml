[package]
name = "gatherer_world"
version = "0.1.0"
edition = "2021"
publish = false

[dependencies]
rand = "0.10"
raylib = "5.5"
