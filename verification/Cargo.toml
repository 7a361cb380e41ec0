[package]
name = "bms-table-fetch"
version = "0.1.0"
edition = "2021"
publish = false

[dependencies]
anyhow = "=1.0.104"
bms-table = "0.12"
chrono = { version = "=0.4.45", features = ["serde"] }
clap = { version = "=4.6.7", features = ["derive"] }
env_logger = "=0.11.11"
log = "=0.4.35"
serde = { version = "=1.0.229", features = ["derive"] }
serde_json = { version = "=1.0.154", features = ["preserve_order"] }
sha3 = "=0.10.9"
tokio = { version = "=1.54.1", features = ["full"] }
toml = "=1.1.8"
url = { version = "=2.5.8", features = ["serde"] }
