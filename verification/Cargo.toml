[package]
name = "pgmind"
version = "0.1.0"
edition = "2021"
publish = false

[dependencies]
blake3 = { version = "=1.8.7", default-features = false }
comrak = { version = "=0.59.0", default-features = false }
serde = { version = "=1.0.229", features = ["derive"] }
serde_json = "=1.0.154"
unicode-normalization = "=0.1.26"
yaml-rust2 = { version = "=0.13.0", default-features = false }
