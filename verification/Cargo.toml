[package]
name = "debugfs"
version = "0.1.0"
edition = "2021"
publish = false

[dependencies]
anyhow = "=1.0.104"
arigato = "=0.1.0"
futures = "=0.3.34"
http = "=1.5.0"
http-body-util = "=0.1.5"
hyper = { version = "=1.12.0", features = ["client", "http1"] }
hyper-util = { version = "=0.1.21", features = ["client", "http1", "tokio"] }
pin-project = "=1.1.13"
reqwest = { version = "=0.13.5", default-features = false }
tokio = { version = "=1.53.2", features = ["full"] }
tokio-stream = "=0.1.19"
tokio-tar = "=0.3.1"
tokio-util = { version = "=0.7.19", features = ["io"] }
tracing = "=0.1.44"
tracing-subscriber = "=0.3.23"
xz2 = "=0.1.7"
