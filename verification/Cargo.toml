[package]
name = "hanekawa"
version = "0.1.0"
edition = "2021"
publish = false

[dependencies]
bytes = "*"
hex = "*"
memchr = "*"
serde = { version = "*", features = ["derive"] }
serde_bytes = "*"
