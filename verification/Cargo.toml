[package]
name = "wgsl_toy"
version = "0.1.0"
edition = "2021"
publish = false

[dependencies]
rand = "0.8"
glam = { version = "0.29", features = ["bytemuck"] }
bytemuck = { version = "1", features = ["derive"] }
pollster = "0.4"
wgpu = "24"
winit = { version = "0.30", default-features = false, features = ["x11", "rwh_06"] }
egui = "0.31"
egui-wgpu = "0.31"
egui-winit = { version = "0.31", default-features = false, features = ["x11"] }
