[package]
name = "state_commitment"
version = "0.1.0"
edition = "2021"
publish = false

[dependencies]
sparse-merkle-tree = { version = "*", features = ["blake2b"] }
blake2b-rs = "*"
flate2 = "*"
rust_decimal = "*"
