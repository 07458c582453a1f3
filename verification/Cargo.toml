[package]
name = "eventbus"
version = "0.1.0"
edition = "2021"
publish = false

[dependencies]
serde = "1"
serde_json = "1"
uuid = { version = "1", features = ["v4"] }
chrono = "0.4"
slug = "0.1"
tokio = { version = "1", features = ["sync", "rt-multi-thread", "macros"] }
async-nats = "*"
async-trait = "0.1"
futures = "0.3"
