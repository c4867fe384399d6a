[package]
name = "z1kv"
version = "0.1.0"
edition = "2021"
publish = false

[dependencies]
arc-swap = "1"
crc32fast = "1"
parking_lot = "0.12"
postcard = { version = "1", features = ["use-std"] }
serde = { version = "1", features = ["derive"] }
serde_json = "1"
thiserror = "2"
tracing = "0.1"
uuid = { version = "1", features = ["v4"] }
