[package]
name = "hft_orderbook"
version = "0.1.0"
edition = "2021"
publish = false

[dependencies]
uuid = { version = "1", features = ["v4"] }
chrono = "0.4"
fnv = "1"
serde = { version = "1", features = ["derive"] }
serde_json = "1"
thiserror = "1"
anyhow = "1"
clap = { version = "4", features = ["derive"] }
colored = "2"
indicatif = "0.17"
num_cpus = "1"
rand = "0.8"
tracing-subscriber = { version = "0.3", features = ["env-filter"] }
parking_lot = "0.12"
