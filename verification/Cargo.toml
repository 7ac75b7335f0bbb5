[package]
name = "compositor"
version = "0.1.0"
edition = "2021"
publish = false

[dependencies]
anyhow = "1"
image = { version = "0.25", default-features = false, features = ["png", "jpeg", "webp", "gif", "bmp"] }
serde = { version = "1", features = ["derive"] }
serde_json = "1"
wgpu = { version = "24", default-features = false, features = ["wgsl"] }
