[package]
name = "rust_messenger"
version = "0.1.0"
edition = "2021"
publish = false

[dependencies]
firebase = "=0.9.1"
hyper = "=0.10.16"
serde = { version = "=1.0.229", features = ["derive"] }
serde_json = "=1.0.154"
websocket = { version = "=0.26.5", default-features = false, features = ["sync"] }
