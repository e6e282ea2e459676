[package]
name = "rogue_core"
version = "0.1.0"
edition = "2021"
publish = false

[dependencies]
bracket-lib = { version = "0.8", default-features = false }
bracket-pathfinding = "0.8"
rand = "0.8"
crossterm = "0.28"
specs = "0.20"
specs-derive = "0.4"
