[package]
name = "mpir"
version = "0.1.0"
edition = "2021"
publish = false

[dependencies]
rust-crypto = "0.2"
bincode = "1"
rand = "0.8"
serde = "1"
