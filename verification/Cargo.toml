[package]
name = "scicomp"
version = "0.1.0"
edition = "2021"
publish = false

[dependencies]
regex = "*"
image = "*"
rayon = "*"
indicatif = "*"
tokio = { version = "*", features = ["rt-multi-thread", "macros", "time"] }
reqwest = "*"
mpi = "*"
