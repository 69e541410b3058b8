[package]
name = "sortforge_3d"
version = "0.1.0"
edition = "2021"
publish = false

[dependencies]
rand = "=0.8.8"
anyhow = "=1.0.104"
bytemuck = { version = "=1.25.2", features = ["derive"] }
egui = "0.32"
egui-wgpu = "0.32"
egui-winit = "0.32"
env_logger = "=0.11.11"
glam = "=0.29.3"
log = "=0.4.35"
pollster = "=0.4.0"
wgpu = "25"
winit = "=0.30.13"
