[package]
name = "telos_cli"
version = "0.1.0"
edition = "2021"
publish = false

[dependencies]
anyhow = "1"
chrono = "0.4"
owo-colors = "4"
serde_json = "1"
