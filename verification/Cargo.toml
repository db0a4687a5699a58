[package]
name = "shapestamp"
version = "0.1.0"
edition = "2021"
publish = false

[dependencies]
clap = { version = "4", features = ["derive"] }
colored = "3"
image = "0.25"
image-compare = "0.4"
imageproc = "0.25"
rand = "0.9"
rand_xoshiro = "0.7"
rayon = "1"
regex = "1"
walkdir = "2"
xmltree = "0.10"
