[package]
name = "swifttunnel_relay"
version = "0.1.0"
edition = "2021"
publish = false

[dependencies]
anyhow = "1"
base64 = "0.22"
crossbeam-channel = "0.5"
dashmap = "6"
env_logger = "0.11"
libc = "0.2"
log = "0.4"
mio = { version = "1", features = ["os-poll", "net"] }
num_cpus = "1"
ring = "0.17"
serde = { version = "1", features = ["derive"] }
serde_json = "1"
socket2 = { version = "0.5", features = ["all"] }
tokio = { version = "1", features = ["full"] }
