[package]
name = "focular"
version = "0.1.0"
edition = "2021"
publish = false

[dependencies]
sha2 = "*"
infer = "*"
base64 = "*"
image = "*"
mime = "*"
thumbnailer = "*"
audio-video-metadata = "*"
serde = { version = "*", features = ["derive"] }
serde_json = "*"
