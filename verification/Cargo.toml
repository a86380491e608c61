[package]
name = "gbam_tools"
version = "0.1.0"
edition = "2021"
publish = false

[dependencies]
byteorder = "1"
crc32fast = "1"
serde = { version = "1", features = ["derive"] }
serde_json = "1"
