[package]
name = "signal_bot"
version = "0.1.0"
edition = "2021"
publish = false

[dependencies]
anyhow = "=1.0.104"
clap = { version = "=4.6.7", features = ["derive"] }
futures = "=0.3.34"
mlua = { version = "=0.10.5", features = ["lua54", "vendored", "send"] }
reqwest = { version = "=0.12.28", features = ["json"] }
rusqlite = "=0.32.1"
serde = { version = "=1.0.229", features = ["derive"] }
serde_json = "=1.0.154"
thiserror = "=1.0.69"
tokio = { version = "=1.54.1", features = ["full"] }
tokio-stream = { version = "=0.1.19", features = ["sync"] }
toml = "=0.8.23"
tracing = "=0.1.44"
