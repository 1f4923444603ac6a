[package]
name = "websdr"
version = "0.1.0"
edition = "2021"
publish = false

[dependencies]
async-channel = "=1.9.0"
axum = { version = "0.6", features = ["headers", "ws"] }
bytes = "=1.12.1"
futures-util = { version = "0.3", features = ["sink"] }
headers = "0.3"
rtl-sdr-rs = "*"
rustfft = "6"
serde = { version = "1", features = ["derive"] }
serde_json = "1"
tokio = { version = "1", features = ["full"] }
tower-http = { version = "0.3", features = ["fs", "trace"] }
tracing = "0.1"
tracing-subscriber = { version = "0.3", features = ["env-filter"] }
