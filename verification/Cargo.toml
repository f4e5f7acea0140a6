[package]
name = "atomic_register"
version = "0.1.0"
edition = "2021"
publish = false

[dependencies]
hmac = "0.11"
sha2 = "0.9"
uuid = { version = "0.8", features = ["v4"] }
bytes = "1"
tokio = { version = "1", features = ["full"] }
async-channel = "1"
async-trait = "0.1"
log = "0.4"
env_logger = "0.9"
tempfile = "3"
