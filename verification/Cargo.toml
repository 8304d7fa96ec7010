[package]
name = "file_rat"
version = "0.1.0"
edition = "2021"
publish = false

[dependencies]
base64 = "0.22"
bzip2 = "*"
memmap2 = "0.9"
serde = { version = "1", features = ["derive"] }
serde_json = "1"
tempfile = "3"
uuid = { version = "1", features = ["v1", "v4", "std", "serde"] }
