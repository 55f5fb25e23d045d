[package]
name = "railog"
version = "0.1.0"
edition = "2021"
publish = false

[dependencies]
anyhow = "1"
candle-core = "0.8.4"
candle-nn = "0.8.4"
candle-transformers = "0.8.4"
chrono = "0.4"
clap = { version = "4", features = ["derive"] }
dbscan = "0.3.1"
env_logger = "0.11"
hf-hub = "0.3.2"
log = "0.4"
ndarray = { version = "0.16", features = ["serde"] }
ndarray-stats = "0.6"
regex = "1"
serde_json = "1"
tokenizers = { version = "0.21", default-features = false, features = ["onig"] }
