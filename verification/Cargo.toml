[package]
name = "mazecode"
version = "0.1.0"
edition = "2021"
publish = false

[dependencies]
bitvec = "1"
itertools = "*"
image = { version = "0.25", default-features = false, features = ["png"] }
rand_xoshiro = "*"
anyhow = "1"
