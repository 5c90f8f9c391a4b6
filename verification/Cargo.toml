[package]
name = "tavtop"
version = "0.1.0"
edition = "2021"
publish = false

[dependencies]
curl = "=0.4.51"
home = "=0.5.12"
num-traits = "=0.2.19"
serde = { version = "=1.0.229", features = ["derive"] }
serde_json = "=1.0.154"
