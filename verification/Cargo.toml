[package]
name = "nbody"
version = "0.1.0"
edition = "2021"
publish = false

[dependencies]
bytemuck = "1"
num = "0.4"
pollster = "0.4"
rand = "*"
wgpu = "*"
winit = "0.30"
