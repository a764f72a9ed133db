[package]
name = "logforward"
version = "0.1.0"
edition = "2021"
publish = false

[dependencies]
rmp = "*"
serde = { version = "*", features = ["derive"] }
anyhow = "*"
tokio = { version = "*", features = ["rt-multi-thread", "time", "macros", "sync"] }
tokio-util = "*"
tracing = "*"
avassa-client = "*"
