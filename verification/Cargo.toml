[package]
name = "kv_mvcc"
version = "0.1.0"
edition = "2021"
publish = false

[dependencies]
arc-swap = "1"
bytes = "1"
tokio = { version = "1", features = ["full"] }
