[package]
name = "rrprof"
version = "0.1.0"
edition = "2021"
publish = false

[dependencies]
wgpu = "*"
winit = "*"
pollster = "*"
crossbeam-queue = "*"
rayon-core = "*"
glam = "*"
bytemuck = { version = "*", features = ["derive"] }
libc = "*"
