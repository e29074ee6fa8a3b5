[package]
name = "fuse_rust"
version = "0.1.0"
edition = "2021"
publish = false

[dependencies]
rayon = "1"
crossbeam-utils = "0.8"
