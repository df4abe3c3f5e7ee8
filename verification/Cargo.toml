[package]
name = "joebot_markov_chain"
version = "0.1.0"
edition = "2021"
publish = false

[dependencies]
chrono = "=0.4.45"
rand = { version = "=0.8.8", features = ["small_rng"] }
indexmap = "=2.14.2"
