[package]
name = "subtitle-ocr"
version = "0.1.0"
edition = "2021"
publish = false

[dependencies]
serde = { version = "=1.0.229", features = ["derive"] }
anyhow = "=1.0.104"
