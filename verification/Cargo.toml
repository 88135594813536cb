[package]
name = "sekigae-rs"
version = "0.1.0"
edition = "2021"
publish = false

[dependencies]
serde = { version = "=1.0.229", features = ["derive"] }
serde_json = "=1.0.154"
chrono = "=0.4.45"
log = "=0.4.35"
reqwest = { version = "=0.12.28", default-features = false, features = ["blocking", "json"] }
