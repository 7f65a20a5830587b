[package]
name = "ml_dsa"
version = "0.1.0"
edition = "2021"
publish = false

[dependencies]
sha3 = "0.10"
getrandom = "0.3"
