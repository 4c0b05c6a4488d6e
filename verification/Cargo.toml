[package]
name = "aoc_rs"
version = "0.1.0"
edition = "2021"
publish = false

[dependencies]
itertools = "*"
rustc-hash = "*"
rayon = "*"
bitvec = "*"
z3 = "*"
