[package]
name = "colony_sim"
version = "0.1.0"
edition = "2021"
publish = false

[dependencies]
priority-queue = "2"
bevy_ecs = "0.14"
bevy_time = "0.14"
crossbeam-channel = "0.5"
futures = "0.3"
rand = "0.8"
serde = { version = "1", features = ["derive"] }
serde_json = "1"
tokio = { version = "1", features = ["rt-multi-thread", "net", "sync", "time", "macros"] }
tokio-tungstenite = "0.21"
