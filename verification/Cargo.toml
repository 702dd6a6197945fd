[package]
name = "stegano"
version = "0.1.0"
edition = "2021"
publish = false

[dependencies]
rust-crypto = "*"
rand = "*"
image = { version = "*", default-features = false, features = ["png"] }
