[package]
name = "tilenav"
version = "0.1.0"
edition = "2021"
publish = false

[dependencies]
sark_pathfinding = "=0.1.3"
