[package]
name = "matching_core"
version = "0.1.0"
edition = "2021"
publish = false

[dependencies]
anyhow = "1"
async-std = { version = "1", features = ["attributes"] }
async-trait = "0.1"
env_logger = "0.9"
rand = "0.8"
serde = { version = "1", features = ["derive"] }
serde_json = "1"
tide = "0.16"
xactor = "0.7"
