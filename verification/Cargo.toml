[package]
name = "kucoin_arbitrage"
version = "0.1.0"
edition = "2021"
publish = false

[dependencies]
rust_decimal = "=1.43.0"
hmac = "=0.12.1"
sha2 = "=0.10.9"
data-encoding = "=2.11.1"
ring = "=0.17.14"
url = "=2.5.8"
serde = { version = "=1.0.229", features = ["derive"] }
serde_json = "=1.0.154"
serde-this-or-that = "=0.5.0"
tokio = { version = "=1.54.1", features = ["full"] }
rand = "=0.8.8"
log = "=0.4.35"
simple_logger = "=5.2.0"
reqwest = { version = "=0.11.27", default-features = false, features = ["json", "rustls-tls"] }
binance-rs-async = { version = "=1.3.3", features = ["wallet_api"] }
workflow-websocket = "=0.19.0"
workflow-core = "=0.19.0"
