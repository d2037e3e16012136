[package]
name = "telemetry_queue"
version = "0.1.0"
edition = "2021"
publish = false

[dependencies]
serde_json = "1"
serde = { version = "1", features = ["derive"] }
sqlx = { version = "0.8", default-features = false, features = ["runtime-tokio", "sqlite"] }
reqwest = { version = "0.12", default-features = false }
tokio = { version = "1", features = ["rt", "macros"] }
