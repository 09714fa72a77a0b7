[package]
name = "tile_connections"
version = "0.1.0"
edition = "2021"
publish = false

[dependencies]
cgmath = "*"
svg = "*"
