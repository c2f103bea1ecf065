[package]
name = "write_to_async_reader"
version = "0.1.0"
edition = "2021"
publish = false

[dependencies]
corosensei = "*"
tokio = { version = "1", features = ["io-util"] }
