[package]
name = "mini_redis"
version = "0.1.0"
edition = "2021"
publish = false

[dependencies]
bytes = "1"
tokio = { version = "1", features = ["rt", "sync", "net", "io-util", "time", "signal", "macros"] }
tokio-stream = "0.1"
async-stream = "0.3"
