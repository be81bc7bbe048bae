[package]
name = "scheduler"
version = "0.1.0"
edition = "2021"
publish = false

[dependencies]
base64 = "0.22"
jiff = "0.2"
serde = { version = "1", features = ["derive"] }
serde_json = "1"
