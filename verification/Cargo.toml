[package]
name = "webgestalt_lib"
version = "0.1.0"
edition = "2021"
publish = false

[dependencies]
ahash = "0.8"
clap = { version = "4", features = ["derive"] }
csv = "1"
ndarray = { version = "0.15", features = ["rayon"] }
owo-colors = { version = "4", features = ["supports-colors"] }
rand = { version = "0.8", features = ["small_rng"] }
rayon = "1"
serde = { version = "1", features = ["derive"] }
serde_json = "1"
statrs = "0.16"
