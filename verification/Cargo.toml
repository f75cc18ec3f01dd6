[package]
name = "rediscovery"
version = "0.1.0"
edition = "2021"
publish = false

[dependencies]
anyhow = "1"
config = "*"
nalgebra = "0.35"
rand = "0.9"
rand_chacha = "0.9"
serde = { version = "1", features = ["derive"] }
thiserror = "2"
tokio = { version = "1", features = ["macros", "rt-multi-thread", "signal", "sync", "time"] }
tokio-util = { version = "0.7", features = ["rt"] }
tracing = "0.1"
tracing-subscriber = "0.3"
