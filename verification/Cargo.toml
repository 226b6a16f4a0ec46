[package]
name = "wallet"
version = "0.1.0"
edition = "2021"
publish = false

[dependencies]
chrono = "=0.4.45"
lazy_static = "=1.5.1"
log = "=0.4.34"
mongodb = { version = "=3.9.1", default-features = false, features = ["sync", "rustls-tls", "bson-3", "compat-3-3-0"] }
rayon = "=1.12.0"
serde = { version = "=1.0.229", features = ["derive"] }
tokio = { version = "=1.53.2", features = ["rt-multi-thread"] }
