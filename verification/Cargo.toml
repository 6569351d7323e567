[package]
name = "ascii_art"
version = "0.1.0"
edition = "2021"
publish = false

[dependencies]
anyhow = "1"
gumdrop = "0.8"
image = { version = "0.24", default-features = false, features = ["png", "jpeg"] }
