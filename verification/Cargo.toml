[package]
name = "toolkitty_core"
version = "0.1.0"
edition = "2021"
publish = false

[dependencies]
p2panda-core = "=0.6.1"
serde = { version = "=1.0.229", features = ["derive"] }
serde_json = "=1.0.151"
tokio = { version = "=1.53.2", features = ["rt", "sync", "time", "macros"] }
