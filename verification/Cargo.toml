[package]
name = "fish"
version = "0.1.0"
edition = "2021"
publish = false

[dependencies]
anyhow = "=1.0.104"
blake3 = "=1.8.7"
chrono = { version = "=0.4.45", features = ["serde"] }
serde = { version = "=1.0.229", features = ["derive"] }
serde_json = "=1.0.154"
sha2 = "0.10"
tokio = { version = "=1.54.1", features = ["rt", "rt-multi-thread", "macros", "time", "net", "io-util", "fs", "sync"] }
