[package]
name = "joebot_markov_chain"
version = "0.1.0"
edition = "2021"
publish = false

[dependencies]
chrono = { version = "0.4", default-features = false, features = ["std"] }
indexmap = { version = "1", features = ["serde-1"] }
rand = { version = "0.7", features = ["small_rng"] }
serde = { version = "1", features = ["derive"] }
