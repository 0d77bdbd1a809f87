[package]
name = "image_processor"
version = "0.1.0"
edition = "2021"
publish = false

[dependencies]
anyhow = "1"
clap = { version = "4", features = ["derive"] }
image = { version = "0.25", default-features = false, features = ["png", "jpeg", "bmp", "gif"] }
serde = { version = "1", features = ["derive"] }
serde_json = "1"
