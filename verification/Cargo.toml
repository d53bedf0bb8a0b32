[package]
name = "diamond_types"
version = "0.1.0"
edition = "2021"
publish = false

[dependencies]
str_indices = "0.4"

[dev-dependencies]
rand = { version = "0.8", features = ["small_rng"] }
