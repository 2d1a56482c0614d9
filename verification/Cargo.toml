[package]
name = "ingot"
version = "0.1.0"
edition = "2021"
publish = false

[dependencies]
rand = { version = "*", features = ["small_rng"] }
image = "*"
num_cpus = "*"
