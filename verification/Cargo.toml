[package]
name = "matching_engine"
version = "0.1.0"
edition = "2021"
publish = false

[dependencies]
rust_decimal = "1"
dashmap = "6"
chrono = { version = "0.4", features = ["serde"] }
serde = { version = "1", features = ["derive"] }
serde_json = "1"
anyhow = "1"
thiserror = "2"
tokio = { version = "1", features = ["full"] }
axum = { version = "0.8", features = ["ws", "macros"] }
axum-extra = { version = "0.10", features = ["cookie"] }
tower-http = { version = "0.6", features = ["auth"] }
futures-util = { version = "0.3", features = ["sink"] }
tracing = "0.1"
uuid = { version = "1", features = ["v4"] }
dotenvy = "0.15"
strum_macros = "0.26"
mongodb = "3"
redis = { version = "0.27", features = ["tokio-comp"] }
rdkafka = "0.37"
