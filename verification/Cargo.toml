[package]
name = "lsnet"
version = "0.1.0"
edition = "2021"
publish = false

[dependencies]
flate2 = "=1.1.10"
simple-dns = "=0.13.0"
clap = { version = "=4.6.7", features = ["derive"] }
comfy-table = "=7.2.2"
dns-lookup = "=2.1.1"
libc = "=0.2.191"
owo-colors = { version = "=4.4.0", features = ["supports-colors"] }
pnet = "=0.35.0"
ratatui = { version = "=0.30.2", features = ["unstable-rendered-line-info"] }
serde = { version = "=1.0.229", features = ["derive"] }
serde_json = "=1.0.154"
tokio = { version = "=1.54.1", features = ["full"] }
