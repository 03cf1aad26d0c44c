[package]
name = "binvis"
version = "0.1.0"
edition = "2021"
publish = false

[dependencies]
rand = "*"
uuid = { version = "*", features = ["v4"] }
chrono = "*"
axum = { version = "*", features = ["ws", "multipart"] }
tokio = { version = "*", features = ["full"] }
tower-http = { version = "*", features = ["cors"] }
tracing = "*"
tracing-subscriber = "*"
serde = { version = "*", features = ["derive"] }
serde_json = "*"
base64 = "*"
memmap2 = "*"
futures = "*"
dotenv = "*"
anyhow = "*"

[dev-dependencies]
rmp = "*"
rmp-serde = "*"
serde_bytes = "*"
