[package]
name = "merkle_bit"
version = "0.1.0"
edition = "2021"
publish = false

[dependencies]
bincode = "1"
evmap = "*"
parking_lot = "*"
rayon = "1"
ron = "*"
serde = { version = "1", features = ["derive"] }
serde-pickle = "*"
serde_cbor = "0.11"
serde_json = "1"
serde_yaml = "0.8"
