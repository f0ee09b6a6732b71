[package]
name = "notto"
version = "0.1.0"
edition = "2021"
publish = false

[dependencies]
uuid = { version = "*", features = ["v4"] }
chrono = "*"
pulldown-cmark = "*"
clap = "*"
console = "*"
dialoguer = "*"
crossbeam-channel = "*"
crossbeam-utils = "*"
dirs = "*"
serde = { version = "*", features = ["derive"] }
serde_yaml = "*"
log = "*"
env_logger = "*"
thiserror = "*"
