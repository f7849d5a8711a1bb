[package]
name = "ace"
version = "0.1.0"
edition = "2021"
publish = false

[dependencies]
indexmap = "2"
gl = "*"
glfw = "*"
gltf = "1"
image = { version = "0.25", default-features = false, features = ["png", "jpeg"] }
clap = { version = "4", features = ["derive"] }
serde = { version = "1", features = ["derive"] }
serde_json = "1"
tracing = "0.1"
tracing-subscriber = "0.3"
