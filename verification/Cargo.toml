[package]
name = "anemo"
version = "0.1.0"
edition = "2021"
publish = false

[dependencies]
anyhow = "=1.0.104"
bincode = "=1.3.3"
bytes = "=1.12.1"
futures = "=0.3.34"
governor = "=0.6.3"
rand = "=0.8.8"
serde = "=1.0.229"
tokio = { version = "=1.54.1", features = ["io-util", "rt", "time"] }
tokio-util = { version = "=0.7.20", features = ["codec"] }
tower = { version = "=0.4.13", features = ["util"] }
tracing = "0.1"
