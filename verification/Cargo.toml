[package]
name = "agv_scheduler"
version = "0.1.0"
edition = "2021"
publish = false

[dependencies]
anyhow = "1"
bincode = "1"
bytes = "1"
dashmap = "6"
flume = "0.11"
futures = "0.3"
parking_lot = "0.12"
rand = "0.9"
serde = { version = "1", features = ["derive"] }
smallvec = "1"
thiserror = "2"
tokio = { version = "1", features = ["full"] }
tokio-util = { version = "0.7", features = ["codec"] }
tracing = "0.1"
tracing-subscriber = { version = "0.3", features = ["env-filter"] }
