[package]
name = "bdd_rust_multiprotocol_server"
version = "0.1.0"
edition = "2021"
publish = false

[dependencies]
anyhow = "1"
async-graphql = "7"
async-graphql-axum = "7"
axum = { version = "0.8", features = ["ws"] }
opentelemetry = "0.27"
opentelemetry_sdk = { version = "0.27", features = ["rt-tokio"] }
opentelemetry-otlp = { version = "0.27", features = ["metrics", "grpc-tonic"] }
prost = "0.13"
quick-xml = "0.37"
serde = { version = "1", features = ["derive"] }
serde_json = "1"
tokio = { version = "1", features = ["full"] }
tonic = "0.12"
