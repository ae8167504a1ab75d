[package]
name = "atelier"
version = "0.1.0"
edition = "2021"
publish = false

[dependencies]
uuid = { version = "1", features = ["v4"] }
log = "0.4"
serde = { version = "1", features = ["derive"] }
ron = "0.8"
bincode = "1"
lz4_flex = "*"
