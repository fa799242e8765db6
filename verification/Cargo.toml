[package]
name = "model_painter"
version = "0.1.0"
edition = "2021"
publish = false

[dependencies]
arboard = "3.6.1"
bytemuck = { version = "1.25.2", features = ["derive"] }
env_logger = "0.11.11"
glam = "0.30.10"
pollster = "0.4.0"
rfd = "0.16.1"
wgpu = "30.0.1"
winit = "0.30.13"
