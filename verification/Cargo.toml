[package]
name = "engine"
version = "0.1.0"
edition = "2021"
publish = false

[dependencies]
chrono = "0.4"
crossbeam-queue = "0.3"
tokio = { version = "1", features = ["full"] }
axum = "0.7"
serde = { version = "1", features = ["derive"] }
serde_json = "1"
clap = { version = "4", features = ["derive"] }
tracing = "0.1"
tracing-subscriber = { version = "0.3", features = ["env-filter"] }
metrics = "0.21"
metrics-exporter-prometheus = { version = "0.12", default-features = false, features = ["http-listener"] }
once_cell = "1"
rand = "0.8"
reqwest = { version = "0.12", default-features = false, features = ["json"] }
async-trait = "0.1"
parking_lot = "0.12"
