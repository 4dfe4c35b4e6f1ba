[package]
name = "pathfinding_simulation"
version = "0.1.0"
edition = "2021"
publish = false

[dependencies]
rand = "0.8"
console = "0.15"
image = "0.25"
indicatif = "0.17"
