[package]
name = "zonekeeper"
version = "0.1.0"
edition = "2021"
publish = false

[dependencies]
dirs = "*"
uuid = { version = "1", features = ["v4", "v7"] }
serde = { version = "1", features = ["derive"] }
serde_json = "1"
libc = "0.2"
