[package]
name = "tile_game"
version = "0.1.0"
edition = "2021"
publish = false

[dependencies]
rand = "*"
console = "*"
