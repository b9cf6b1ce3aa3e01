[package]
name = "recurrence"
version = "0.1.0"
edition = "2021"
publish = false

[dependencies]
winter-math = "0.3"
winter-air = "0.3"
winter-prover = "0.3"
winter-verifier = "0.3"
rand = "0.8"
