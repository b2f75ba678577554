[package]
name = "solana-falcon512"
version = "0.1.0"
edition = "2021"
publish = false

[dev-dependencies]
sha3 = "0.10"
