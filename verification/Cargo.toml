[package]
name = "extreme_bitmap"
version = "0.1.0"
edition = "2021"
publish = false

[dependencies]
itertools = "*"
