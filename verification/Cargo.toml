[package]
name = "lowdb"
version = "0.1.0"
edition = "2021"
publish = false

[dependencies]
crc32fast = "1"
dashmap = "6"
thiserror = "2"
tokio = { version = "1", features = ["fs", "io-util", "macros", "rt-multi-thread", "sync", "time"] }
tracing = "0.1"
