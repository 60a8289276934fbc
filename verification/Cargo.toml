[package]
name = "rumqtt"
version = "0.1.0"
edition = "2021"
publish = false

[dependencies]
bytes = "1"
jackiechan = "*"
tokio = { version = "0.2", default-features = false, features = ["time", "io-util", "tcp", "stream", "sync", "rt-core", "dns"] }
futures-util = "0.3"
async-stream = "0.2"
derive_more = "0.99"
