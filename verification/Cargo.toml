[package]
name = "log_analyzer"
version = "0.1.0"
edition = "2021"
publish = false

[dependencies]
lru = "*"
chrono = "*"
tokio = { version = "*", features = ["full"] }
async-nats = "*"
axum = "*"
clap = { version = "*", features = ["derive"] }
rand = "*"
futures-util = "*"
tryhard = "*"
parking_lot = "*"
tracing = "*"
tracing-subscriber = { version = "*", features = ["env-filter"] }
