[package]
name = "tile_walk"
version = "0.1.0"
edition = "2021"
publish = false

[dependencies]
rand = "0.7"
rand_chacha = "0.2"
proconio = "0.4"
num = "0.4"
