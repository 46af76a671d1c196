[package]
name = "redis_rust"
version = "0.1.0"
edition = "2021"
publish = false

[dependencies]
anyhow = "1"
tokio = { version = "1", features = ["rt-multi-thread", "net", "time", "io-util", "macros"] }
