[package]
name = "hc_multitool"
version = "0.1.0"
edition = "2021"
publish = false

[dependencies]
clap = { version = "=4.6.7", features = ["derive"] }
color-eyre = "=0.6.5"
dirs = "=7.0.0"
env_logger = "=0.11.11"
eyre = "=0.6.14"
log = "=0.4.34"
serde = { version = "=1.0.229", features = ["derive"] }
serde_json = { version = "=1.0.154", features = ["preserve_order"] }
tap = "=1.0.1"
