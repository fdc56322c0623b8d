[package]
name = "matten"
version = "0.20.0"
edition = "2021"
publish = false

[dependencies]
csv = "1"

[dev-dependencies]
proptest = "1"
