[package]
name = "vector_index"
version = "0.1.0"
edition = "2021"
publish = false

[dependencies]
roaring = "0.10"
rand = "0.8"
rayon = "1"
