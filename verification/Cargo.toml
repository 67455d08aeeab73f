[package]
name = "orderbook"
version = "0.1.0"
edition = "2021"
publish = false

[dependencies]
chrono = "0.4"
colored = "2"
csv = "1"
env_logger = "0.11"
futures = "0.3"
log = "0.4"
prost = "0.13"
reqwest = { version = "0.12", default-features = false, features = ["json", "rustls-tls"] }
serde = { version = "1", features = ["derive"] }
serde_json = "1"
serde_yaml = "0.9"
structopt = "0.3"
tokio = { version = "1", features = ["full"] }
tonic = "0.12"
uuid = { version = "1", features = ["v4"] }
