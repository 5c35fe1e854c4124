[package]
name = "ising"
version = "0.1.0"
edition = "2021"
publish = false

[dependencies]
rand = { version = "0.8", features = ["small_rng"] }
signal-hook = "0.3"
memmap = "0.7"
