[package]
name = "volume_controller"
version = "0.1.0"
edition = "2021"
publish = false

[dependencies]
ab_glyph = "0.2"
anyhow = "1"
base64 = "0.22"
image = { version = "0.25", default-features = false, features = ["png", "webp"] }
libpulse-binding = "2"
openaction = "*"
pulsectl-rs = "*"
tokio = { version = "1", features = ["rt", "rt-multi-thread", "sync", "time"] }
x11rb = "0.13"
zbus = { version = "5", default-features = false, features = ["tokio"] }
