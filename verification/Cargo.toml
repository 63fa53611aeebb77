[package]
name = "ascii_art"
version = "0.1.0"
edition = "2021"
publish = false

[dependencies]
image = "*"
imageproc = "*"
ab_glyph = "*"
anyhow = "*"
once_cell = "*"
rayon = "*"

[dev-dependencies]
fontdb = "*"
