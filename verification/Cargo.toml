[package]
name = "coredump_bot"
version = "0.1.0"
edition = "2021"
publish = false

[dependencies]
chrono = "=0.4.45"
env_logger = "=0.11.11"
futures = "0.3"
hyper = "=0.13.10"
hyper-tls = "=0.4.3"
log = "=0.4.34"
serde_json = "1"
spaceapi = "=0.9.0"
telegram-bot = "=0.8.0"
tokio = { version = "0.2", features = ["rt-core"] }
