[package]
name = "axon"
version = "0.3.5"
edition = "2021"
publish = false

[dependencies]
anyhow = "=1.0.104"
axum = "=0.8.9"
clap = { version = "=4.6.7", features = ["derive"] }
dashmap = "=6.2.1"
ndarray = "=0.16.1"
num_cpus = "=1.17.0"
ort = { version = "=2.0.0-rc.10", default-features = false, features = ["std", "ndarray", "load-dynamic"] }
parking_lot = "=0.12.5"
prometheus = "=0.14.0"
rayon = "=1.12.0"
rhai = { version = "=1.27.0", features = ["sync"] }
serde = { version = "=1.0.229", features = ["derive"] }
serde_json = "=1.0.154"
serde_yaml = "=0.9.34"
tokio = { version = "=1.54.1", features = ["full"] }
tracing = "=0.1.44"
tracing-appender = "=0.2.5"
tracing-subscriber = { version = "=0.3.23", features = ["json", "fmt", "registry"] }
opentelemetry = "0.30"
opentelemetry_sdk = { version = "0.30", features = ["trace"] }
opentelemetry-otlp = { version = "0.30", default-features = false, features = ["grpc-tonic", "trace"] }
tracing-opentelemetry = "0.31"
