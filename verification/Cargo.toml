[package]
name = "timetoreach"
version = "0.1.0"
edition = "2021"
publish = false

[dependencies]
chrono = { version = "0.4", default-features = false }
env_logger = "0.11"
id-arena = "2"
lazy_static = "1"
rstar = "0.12"
serde = { version = "1", features = ["derive"] }
tokio = { version = "1", features = ["rt-multi-thread"] }
