[package]
name = "coded"
version = "0.1.0"
edition = "2021"
publish = false

[dependencies]
bincode = "0.9"
chrono = "0.4"
maud = "0.26"
rocket = "0.5"
rocksdb = "*"
serde = { version = "1", features = ["derive"] }
serde_derive = "1"
toml = "0.8"
walkdir = "2"
