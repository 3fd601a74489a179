[package]
name = "cvrp_genetic"
version = "0.1.0"
edition = "2021"
publish = false

[dependencies]
nalgebra = "*"
rand = { version = "*", features = ["small_rng"] }
rayon = "*"
pdqselect = "*"
serde = { version = "*", features = ["derive"] }
serde_json = "*"
clap = "*"
