[package]
name = "rusttransformer"
version = "0.1.0"
edition = "2021"
publish = false

[dependencies]
log = "0.4"
ndarray = { version = "0.15", features = ["serde"] }
rand = "0.8"
rand_distr = "0.4"
serde = { version = "1", features = ["derive"] }
serde_json = "1"
