[package]
name = "raft"
version = "0.1.0"
edition = "2021"
publish = false

[dependencies]
anyhow = "=1.0.104"
aya = "=0.13.1"
aya-ebpf = "=0.1.1"
aya-log-ebpf = "=0.1.0"
bincode = "=1.3.3"
bytes = "=1.12.1"
clap = { version = "=4.6.7", features = ["derive"] }
heapless = { version = "=0.8.0", features = ["serde"] }
network-types = "=0.2.0"
rand = "=0.8.8"
serde = { version = "=1.0.229", features = ["derive"] }
serde_json = "=1.0.154"
tokio = { version = "=1.54.1", features = ["full"] }
toml = "=0.8.23"
tracing = "=0.1.44"
tracing-subscriber = { version = "=0.3.23", features = ["env-filter"] }
