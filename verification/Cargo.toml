[package]
name = "hugimq"
version = "0.1.0"
edition = "2021"
publish = false

[dependencies]
arc-swap = "1.7"
bytes = "1.6"
clap = { version = "4", features = ["derive"] }
futures-util = "0.3"
hdrhistogram = "7"
itoa = "1"
libc = "0.2"
parking_lot = "0.12"
redis = { version = "0.25", features = ["tokio-comp"] }
tokio = { version = "1", features = ["full"] }
tracing = "0.1"
tracing-subscriber = { version = "0.3", features = ["env-filter"] }
