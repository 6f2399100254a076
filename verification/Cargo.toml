[package]
name = "rectanglify"
version = "0.1.0"
edition = "2021"
publish = false

[dependencies]
anyhow = "1"
gstreamer = "0.18"
gstreamer-base = "0.18"
gstreamer-video = "0.18"
image = { version = "0.24", default-features = false, features = ["png", "jpeg"] }
num-traits = "0.2"
once_cell = "1"
