[package]
name = "mem_etcd"
version = "0.1.0"
edition = "2021"
publish = false

[dependencies]
bytes = "=1.12.1"
dashmap = "=6.2.1"
crossbeam = "=0.8.5"
libc = "=0.2.191"
tokio = { version = "=1.54.1", features = ["full"] }
tokio-stream = "=0.1.19"
async-stream = "=0.3.6"
futures = "=0.3.34"
tonic = "=0.12.3"
prost = "=0.13.5"
axum = "=0.7.9"
tower-http = { version = "=0.6.11", features = ["metrics"] }
clap = { version = "=4.6.7", features = ["derive", "env"] }
prometheus = "=0.14.0"
once_cell = "=1.21.4"
env_logger = "=0.11.11"
tokio-metrics-collector = "=0.3.1"
