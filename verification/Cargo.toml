[package]
name = "smsg_gateway"
version = "0.1.0"
edition = "2021"
publish = false

[dependencies]
tokio = { version = "*", features = ["sync", "rt", "net", "macros", "io-util"] }
serde_json = "*"
bytes = "*"
futures = "*"
tokio-util = { version = "*", features = ["codec"] }
