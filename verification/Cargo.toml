[package]
name = "redstone_simulator"
version = "0.1.0"
edition = "2021"
publish = false

[dependencies]
petgraph = { version = "0.6", default-features = false, features = ["stable_graph"] }
itertools = "0.10"
once_cell = "1"
hematite-nbt = "0.5"
