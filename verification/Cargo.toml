[package]
name = "rustotpony"
version = "0.1.0"
edition = "2021"
publish = false

[dependencies]
rust-crypto = "0.2"
rand = "0.8"
base32 = "*"
oath = "*"
