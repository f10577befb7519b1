[package]
name = "blip"
version = "0.1.0"
edition = "2021"
publish = false

[dependencies]
rust-crypto = "=0.2.36"

[dev-dependencies]
regex = "=1.13.1"
