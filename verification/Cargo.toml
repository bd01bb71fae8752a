[package]
name = "ryu-reasoning"
version = "0.1.0"
edition = "2021"
publish = false

[dependencies]
anyhow = "1"
axum = "0.7"
chrono = "0.4"
dirs = "5"
reqwest = { version = "0.12", default-features = false, features = ["json"] }
serde = { version = "1", features = ["derive"] }
serde_json = "=1.0.154"
tokio = { version = "1", features = ["io-std", "io-util", "rt", "macros"] }
tracing = "0.1"
utoipa = "5"
uuid = { version = "=1.29.0", features = ["v4"] }
