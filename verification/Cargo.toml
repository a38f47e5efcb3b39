[package]
name = "lednet"
version = "0.1.0"
edition = "2021"
publish = false

[dependencies]
byteorder = "1"
rand = "0.8"
lru-cache = "0.1"
futures = "0.1"
tokio-core = "0.1"
serial = "0.4"
bincode = "1"
serde = { version = "1", features = ["derive"] }
clap = "2"
atomic_box = "*"
