[package]
name = "ssz_multiproof"
version = "0.1.0"
edition = "2021"
publish = false

[dependencies]
ethereum_hashing = "*"
hex = "*"
serde_json = "*"
