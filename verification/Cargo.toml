[package]
name = "chesnaught"
version = "0.1.0"
edition = "2021"
publish = false

[dependencies]
rand = "0.9"
rustc-hash = "2"
chess = "3"
