[package]
name = "learning_rust"
version = "0.1.0"
edition = "2021"
publish = false

[dependencies]
rand = "=0.8.8"
anyhow = "=1.0.104"
thiserror = "=1.0.69"
ansi_term = "=0.12.1"
serde = { version = "=1.0.229", features = ["derive"] }
serde_json = "=1.0.154"
url = { version = "=2.5.8", features = ["serde"] }
tokio = { version = "=1.54.1", features = ["full"] }
tokio-util = "=0.7.20"
async-channel = "=1.9.0"
reqwest = { version = "=0.11.27", default-features = false, features = ["json", "rustls-tls"] }
waitgroup = "=0.1.2"
lapin = { version = "2", default-features = false }
async-trait = "0.1"
futures = "0.3"
tracing = "0.1"
tracing-subscriber = { version = "0.3", features = ["env-filter"] }
