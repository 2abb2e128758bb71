[package]
name = "kersd"
version = "0.1.0"
edition = "2021"
publish = false

[dependencies]
ethers-core = "2"
ethers-providers = "2"
eyre = "0.6"
log = "0.4"
pretty_env_logger = "0.5"
serde = { version = "1", features = ["derive"] }
serde_json = "1"
tokio = { version = "1", features = ["full"] }
