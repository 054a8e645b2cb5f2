[package]
name = "vstream"
version = "0.1.0"
edition = "2021"
publish = false

[dependencies]
serde = "*"
erased-serde = "*"
velocypack = "*"
