[package]
name = "wgenty_memory"
version = "0.1.0"
edition = "2021"
publish = false

[dependencies]
regex = "1"
jieba-rs = "*"
uuid = { version = "1", features = ["v4"] }
chrono = { version = "0.4", features = ["serde"] }
serde = { version = "1", features = ["derive"] }
serde_json = "1"
rand = "0.8"
anyhow = "1"
dirs = "*"
tracing = "0.1"
tokio = { version = "1", features = ["fs", "rt", "rt-multi-thread", "macros", "sync", "time", "io-util"] }
