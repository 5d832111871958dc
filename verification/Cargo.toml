[package]
name = "wc3_formats"
version = "0.1.0"
edition = "2021"
publish = false

[dependencies]
nom = "5"
anyhow = "1"
serde = { version = "1", features = ["derive"] }
serde_derive = "1"
serde_json = "1"
image = "0.23"
log = "0.4"
env_logger = "*"
dotenv = "0.15"
pbr = "1"
