[package]
name = "drift"
version = "0.1.0"
edition = "2021"
publish = false

[dependencies]
urlencoding = "2"
serde = { version = "1", features = ["derive"] }
serde_json = "1"
anyhow = "1"
dirs = "5"
tracing = "0.1"
tracing-subscriber = "0.3"
tokio = { version = "1", features = ["time", "sync", "rt", "macros"] }
clipboard-win = "5"
