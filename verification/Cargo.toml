[package]
name = "rastfm"
version = "0.1.0"
edition = "2021"
publish = false

[dependencies]
rust-crypto = "0.2"
serde_urlencoded = "0.7"
serde_json = "1"
hyper = "0.11"
tokio-core = "0.1"
futures = "0.1"
