[package]
name = "dht"
version = "0.1.0"
edition = "2021"
publish = false

[dependencies]
anyhow = "1"
lru = "0.12"
rand = "0.8"
tokio = { version = "1", features = ["macros", "rt", "rt-multi-thread", "sync", "time"] }
url = "2"
