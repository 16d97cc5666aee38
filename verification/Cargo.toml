[package]
name = "entrouter-line"
version = "0.1.0"
edition = "2021"
publish = false

[dependencies]
reed-solomon-erasure = "6"
dashmap = "6"
tokio = { version = "1", features = ["full"] }
serde = { version = "1", features = ["derive"] }
serde_json = "1"
toml = "0.8"
clap = { version = "4", features = ["derive"] }
axum = "0.7"
tracing = "0.1"
tracing-subscriber = { version = "0.3", features = ["env-filter"] }
quinn = "0.11"
rcgen = "0.13"
rustls = { version = "0.23", default-features = false, features = ["ring", "std", "logging", "tls12"] }
chacha20poly1305 = "0.10"
