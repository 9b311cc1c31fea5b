[package]
name = "live-mutex-mills"
version = "0.1.0"
edition = "2021"
publish = false

[dependencies]
rmp-serde = "1"
serde_json = { version = "1", features = ["preserve_order"] }
tracing = "0.1"
