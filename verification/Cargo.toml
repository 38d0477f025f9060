[package]
name = "web3_proxy"
version = "0.1.0"
edition = "2021"
publish = false

[dependencies]
anyhow = "=1.0.104"
arc-swap = "=1.9.3"
dashmap = "=5.5.3"
flume = "=0.11.1"
governor = { version = "=0.6.3", default-features = false, features = ["std", "quanta"] }
hashbrown = { version = "=0.14.5", default-features = false }
hdrhistogram = { version = "=7.6.0", default-features = false }
tokio = { version = "=1.54.1", features = ["sync", "rt", "macros", "time"] }
tracing = "=0.1.44"
