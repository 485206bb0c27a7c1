[package]
name = "rustorrent"
version = "0.1.0"
edition = "2021"
publish = false

[dependencies]
memmap = "=0.7.0"
sha1 = "=0.10.7"
percent-encoding = "=2.3.2"
serde = { version = "=1.0.229", features = ["derive"] }
url = "2"
