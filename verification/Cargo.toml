[package]
name = "probe"
version = "0.1.0"
edition = "2021"
publish = false

[dependencies]
starknet = "*"
clap = { version = "*", features = ["derive", "env"] }
eyre = "*"
serde_json = "*"
url = "*"
tokio = { version = "*", features = ["rt", "macros"] }
