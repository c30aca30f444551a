[package]
name = "hyprkcs"
version = "0.1.0"
edition = "2021"
publish = false

[dependencies]
fuzzy-matcher = "=0.3.7"
similar = "=2.7.0"
dirs = "=7.0.0"
glob = "=0.3.4"
chrono = "=0.4.45"
serde = { version = "=1.0.229", features = ["derive"] }
serde_json = "=1.0.154"
anyhow = "=1.0.104"
regex = "1"
