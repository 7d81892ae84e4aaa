[package]
name = "min_creds"
version = "0.1.0"
edition = "2021"
publish = false

[dependencies]
actix = "0.13"
actix-web = { version = "4", features = ["openssl"] }
actix-web-httpauth = "0.8"
argh = "0.1"
chrono = { version = "0.4", features = ["serde"] }
env_logger = "0.11"
eyre = "0.6"
futures = "0.3"
log = "0.4"
openssl = "0.10"
serde = { version = "1", features = ["derive"] }
serde_json = "1"
serde_yaml = "0.9"
sha1 = "0.6"
tokio = { version = "1", features = ["sync", "fs", "io-util"] }
uuid = { version = "1", features = ["v4"] }
