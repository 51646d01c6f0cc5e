[package]
name = "renderer"
version = "0.1.0"
edition = "2021"
publish = false

[dependencies]
anyhow = "1"
cgmath = "0.18"
log = "0.4"
serde = { version = "1", features = ["derive"] }
serde_json = "1"
wgpu = "*"
