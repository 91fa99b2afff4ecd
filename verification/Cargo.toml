[package]
name = "axon"
version = "0.1.0"
edition = "2021"
publish = false

[dependencies]
chrono = "*"
clap = { version = "*", features = ["derive"] }
crossterm = "*"
dialoguer = "*"
serde = { version = "*", features = ["derive"] }
serde_json = "*"
toml = "*"
