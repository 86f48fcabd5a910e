[package]
name = "watermark_removal"
version = "0.1.0"
edition = "2021"
publish = false

[dependencies]
image = "0.24"
imageproc = "0.23"
base64 = "0.21"
serde = { version = "1", features = ["derive"] }
