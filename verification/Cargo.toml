[package]
name = "sharded_cache"
version = "0.1.0"
edition = "2021"
publish = false

[dependencies]
lru = "*"
bytes = "1"
serde = { version = "1", features = ["derive"] }
serde_json = "1"
tokio = { version = "1", features = ["net", "io-util", "sync", "time", "rt-multi-thread", "macros"] }
