[package]
name = "resp_codec"
version = "0.1.0"
edition = "2021"
publish = false

[dependencies]
parking_lot = "=0.12.5"
lock_api = "=0.4.14"
tokio = { version = "1", features = ["full"] }
tokio-util = { version = "*", features = ["codec"] }
tokio-stream = "*"
futures = "*"
bytes = "1"
