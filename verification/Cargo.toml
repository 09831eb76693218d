[package]
name = "behavior_tree"
version = "0.1.0"
edition = "2021"
publish = false

[dependencies]
tokio = { version = "1", features = ["sync", "rt", "rt-multi-thread", "time", "macros"] }
futures = "*"
actify = "*"
log = "*"
anyhow = "*"
uuid = { version = "*", features = ["v4"] }
