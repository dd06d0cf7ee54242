[package]
name = "relay_hub"
version = "0.1.0"
edition = "2021"
publish = false

[dependencies]
tokio = { version = "1", features = ["sync", "rt-multi-thread", "macros"] }
tokio-stream = "0.1"
futures-util = "0.3"
warp = "0.3"
