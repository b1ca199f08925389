[package]
name = "exr_blocks"
version = "0.1.0"
edition = "2021"
publish = false

[dependencies]
rayon = "*"
miniz_oxide = "*"
