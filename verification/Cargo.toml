[package]
name = "dungeon_3d_generator"
version = "0.1.0"
edition = "2021"
publish = false

[dependencies]
nalgebra = "0.33"
pathfinding = "4"
rand = "0.8"
