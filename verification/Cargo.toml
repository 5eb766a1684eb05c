[package]
name = "greychain"
version = "0.1.0"
edition = "2021"
publish = false

[dependencies]
rsa = { version = "0.9", features = ["sha2"] }
rand = "0.8"
digest = "0.10"
