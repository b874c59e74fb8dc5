[package]
name = "stream_monitor"
version = "0.1.0"
edition = "2021"
publish = false

[dependencies]
indexmap = "*"
tokio = { version = "*", features = ["rt-multi-thread", "macros", "time", "sync"] }
tracing = "*"
anyhow = "*"
