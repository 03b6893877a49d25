[package]
name = "smg_core"
version = "0.1.0"
edition = "2021"
publish = false

[dependencies]
async-trait = "0.1"
axum = "0.8"
bincode = "1.3"
chrono = { version = "0.4", features = ["serde"] }
dashmap = "6"
futures = "0.3"
metrics = "0.24"
parking_lot = "0.12"
rand = "0.9"
serde = { version = "1", features = ["derive"] }
serde_json = "1"
tokio = { version = "1", features = ["full"] }
tracing = "0.1"
uuid = { version = "1", features = ["v4", "v7", "serde"] }
