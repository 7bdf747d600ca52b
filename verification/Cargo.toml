[package]
name = "offline_search"
version = "0.1.0"
edition = "2021"
publish = false

[dependencies]
serde = { version = "1", features = ["derive"] }
serde_json = "1"
sqlite = "*"
sqlite3-sys = "*"
tiny_http = "*"
xml-rs = "*"
