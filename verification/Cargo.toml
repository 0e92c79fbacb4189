[package]
name = "metaverse_pallets"
version = "0.1.0"
edition = "2021"
publish = false

[dependencies]
sp-weights = { version = "=37.0.0", default-features = false, features = ["std"] }
sp-crypto-hashing = "*"
