[package]
name = "rates_cache"
version = "0.1.0"
edition = "2021"
publish = false

[dependencies]
anyhow = "=1.0.104"
askama = "=0.12.1"
chrono = { version = "=0.4.45", default-features = false, features = ["std"] }
log = "=0.4.34"
serde = { version = "=1.0.229", features = ["derive"] }
sled = "=0.34.7"
thiserror = "=1.0.69"
tokio-executor = { version = "=0.2.0-alpha.6", features = ["blocking"] }
warp = { version = "=0.3.7", default-features = false }

[dev-dependencies]
bincode = "=1.3.3"
tempfile = "=3.27.0"
