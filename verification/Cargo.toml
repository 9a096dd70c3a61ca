[package]
name = "rust_fr"
version = "0.1.0"
edition = "2021"
publish = false

[dependencies]
bitvec = "1"
ciborium = "0.2"
rmp-serde = "1"
serde = { version = "1", features = ["derive"] }
serde_json = "1"
thiserror = "1"
