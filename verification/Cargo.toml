[package]
name = "vtext"
version = "0.1.0"
edition = "2021"
publish = false

[dependencies]
regex = "*"
unicode-segmentation = "*"
seahash = "*"
rayon = "*"
sprs = "*"
rust-stemmers = "*"
serde = { version = "*", features = ["derive"] }
ndarray = "*"
