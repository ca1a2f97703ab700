[package]
name = "puzzlekit"
version = "0.1.0"
edition = "2021"
publish = false

[dependencies]
nom = "7"
rayon = "*"
clap = { version = "4", features = ["derive"] }
indexmap = "*"
rangemap = "*"
petgraph = "*"
itertools = "*"
bitvec = "*"
good_lp = { version = "*", default-features = false, features = ["microlp"] }
