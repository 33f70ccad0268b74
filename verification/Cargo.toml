[package]
name = "grid_algebra"
version = "0.1.0"
edition = "2021"
publish = false

[dependencies]
dashmap = "*"
once_cell = "*"
