[package]
name = "kraken_exporter"
version = "0.1.0"
edition = "2021"
publish = false

[dependencies]
axum = "=0.5.17"
chrono = "=0.4.45"
clap = { version = "=3.2.25", features = ["cargo", "env"] }
env_logger = "=0.9.3"
hyper = { version = "=0.14.32", features = ["full"] }
hyper-rustls = "=0.23.2"
log = "=0.4.34"
metrics = "0.20"
metrics-exporter-prometheus = { version = "0.11", default-features = false }
serde = { version = "=1.0.229", features = ["derive"] }
serde_json = "=1.0.154"
tokio = { version = "=1.54.1", features = ["full"] }
tower-http = { version = "=0.3.5", features = ["trace"] }
