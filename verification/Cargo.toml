[package]
name = "pegaflow"
version = "0.1.0"
edition = "2021"
publish = false

[dependencies]
axum = "0.8"
bincode = { version = "2", features = ["serde"] }
clap = { version = "4", features = ["derive"] }
log = "0.4"
opentelemetry = "*"
opentelemetry-otlp = { version = "*", features = ["grpc-tonic", "metrics"] }
opentelemetry-prometheus = "*"
opentelemetry_sdk = { version = "*", features = ["metrics"] }
prometheus = "*"
pyo3 = { version = "*", features = ["abi3-py39"] }
reqwest = { version = "0.12", default-features = false, features = ["json", "stream"] }
serde = { version = "1", features = ["derive"] }
serde_json = "1"
tokio = { version = "1", features = ["full"] }
tokio-stream = "0.1"
uuid = { version = "1", features = ["v4"] }
