[package]
name = "fix_engine"
version = "0.1.0"
edition = "2021"
publish = false

[dependencies]
skiplist = "*"
chrono = "0.4"
tokio = { version = "1", features = ["rt-multi-thread", "net", "io-util", "sync", "time", "macros", "fs", "signal"] }
