[package]
name = "euid"
version = "0.1.0"
edition = "2021"
publish = false

[dependencies]
bech32 = "0.9"
getrandom = "0.2"

[dev-dependencies]
rand = "0.8"
