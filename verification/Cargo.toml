[package]
name = "policy_transform"
version = "0.1.0"
edition = "2021"
publish = false

[dependencies]
policy-rs = { version = "=1.8.2", features = ["http", "grpc"] }
vrl = { version = "=0.33.1", default-features = false, features = ["value", "path"] }
bytes = "=1.12.1"
chrono = "=0.4.45"
serde = { version = "=1.0.229", features = ["derive"] }
serde_json = "=1.0.154"
toml = "=1.1.8"
typetag = "=0.2.23"
async-trait = "=0.1.92"
async-stream = "=0.3.6"
futures = "=0.3.34"
