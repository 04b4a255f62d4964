[package]
name = "aetherquill"
version = "0.1.0"
edition = "2021"
publish = false

[dependencies]
font8x8 = "=0.3.1"
libc = "=0.2.191"
libremarkable = "*"
serde = { version = "=1.0.229", features = ["derive"] }
serde_json = "=1.0.154"
