[package]
name = "ipmes_rust"
version = "0.1.0"
edition = "2021"
publish = false

[dependencies]
ahash = "0.8"
petgraph = "0.6"
regex = "1"
serde_json = "1"
csv = "1"
clap = { version = "4", features = ["derive"] }
log = "0.4"
env_logger = "0.11"
cpu-time = "1"
thiserror = "1"
