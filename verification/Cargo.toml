[package]
name = "kernelkit"
version = "0.1.0"
edition = "2021"
publish = false

[dependencies]
bytes = "1"
chrono = "0.4"
hex = "0.4"
hmac-sha256 = "1"
rand = "0.9"
serde = { version = "1", features = ["derive"] }
serde_json = "1"
thiserror = "2"
tokio = { version = "1", features = ["rt-multi-thread", "macros", "sync", "fs", "io-util", "time"] }
uuid = { version = "1", features = ["v4"] }
zeromq = "0.4"
log = "0.4"
