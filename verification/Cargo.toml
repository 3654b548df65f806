[package]
name = "miyu"
version = "0.1.0"
edition = "2021"
publish = false

[dependencies]
anyhow = "=1.0.104"
blake3 = "=1.8.7"
chrono = "=0.4.45"
futures-util = "=0.3.34"
rand = "=0.9.5"
reqwest = { version = "=0.12.28", default-features = false }
rusqlite = { version = "=0.32.1", features = ["bundled"] }
serde = { version = "=1.0.229", features = ["derive"] }
serde_json = "=1.0.154"
tokio = { version = "=1.54.1", features = ["net", "io-util", "rt", "sync", "time"] }
toml = { version = "=0.8.23", features = ["preserve_order"] }
tracing = "=0.1.44"

[dev-dependencies]
tempfile = "=3.27.0"
