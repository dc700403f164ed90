[package]
name = "biscvi"
version = "0.1.0"
edition = "2021"
publish = false

[dependencies]
flate2 = "*"
noodles = { version = "*", features = ["gff", "gtf"] }
serde = { version = "*", features = ["derive"] }
serde_cbor = "*"
anyhow = "*"
