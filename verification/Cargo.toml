[package]
name = "model_viewer"
version = "0.1.0"
edition = "2021"
publish = false

[dependencies]
bytemuck = { version = "*", features = ["derive"] }
eframe = { version = "*", default-features = false, features = ["wgpu", "default_fonts", "x11"] }
egui-wgpu = "*"
fbxcel-dom = "*"
glam = "*"
gltf = "*"
image = { version = "*", default-features = false, features = ["png", "jpeg"] }
rfd = "*"
serde = { version = "*", features = ["derive"] }
serde_json = "*"
