[package]
name = "prism_chain"
version = "0.1.0"
edition = "2021"
publish = false

[dependencies]
bincode = "1"
log = "0.4"
rocksdb = "0.12"
serde = { version = "1", features = ["derive"] }
serde_json = "1"
