[package]
name = "ground_segmentation"
version = "0.1.0"
edition = "2021"
publish = false

[dependencies]
clap = { version = "4", features = ["derive"] }
itertools = "*"
kdtree = "*"
las = { version = "*", features = ["laz"] }
rayon = "1"
