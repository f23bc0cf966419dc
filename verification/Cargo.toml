[package]
name = "ahc_subs"
version = "0.1.0"
edition = "2021"
publish = false

[dependencies]
rand = { version = "0.7.3", features = ["small_rng"] }
itertools = "0.9.0"
