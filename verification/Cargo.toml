[package]
name = "sailfish"
version = "0.1.0"
edition = "2021"
publish = false

[dependencies]
anyhow = "1"
async-trait = "0.1"
bincode = "1.3"
bytes = "1"
clap = "2.33"
ed25519-dalek = "1.0.1"
env_logger = "0.9"
futures = "0.3"
itoa = "1"
log = "0.4"
rand = "0.7"
serde = { version = "1", features = ["derive"] }
tokio = { version = "1", features = ["full"] }
tokio-util = { version = "0.6", features = ["codec", "time"] }
