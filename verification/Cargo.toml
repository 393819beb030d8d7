[package]
name = "locald_core"
version = "0.1.0"
edition = "2021"
publish = false

[dependencies]
sha2 = "0.10"
uuid = { version = "1", features = ["v4", "v5", "serde"] }
serde = { version = "1", features = ["derive"] }
serde_json = "1"
thiserror = "2"
anyhow = "1"
schemars = "1"
tokio = { version = "1", features = ["fs", "io-util", "process", "rt", "sync", "macros"] }
tokio-stream = { version = "0.1", features = ["io-util"] }
libc = "0.2"
git2 = "0.20"
