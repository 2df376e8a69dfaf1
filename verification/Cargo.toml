[package]
name = "micro_voxels"
version = "0.1.0"
edition = "2021"
publish = false

[dependencies]
bitvec = "=1.1.1"
anyhow = "=1.0.104"
ash = "=0.38.0"
bytemuck = { version = "=1.25.2", features = ["derive"] }
egui = "=0.37.0"
egui-wgpu = "=0.37.0"
egui-winit = { version = "=0.37.0", default-features = false, features = ["wayland", "x11"] }
glam = { version = "=0.34.2", features = ["bytemuck"] }
humanize-bytes = "=1.0.6"
notify = "=8.2.1"
notify-debouncer-full = "=0.7.0"
pollster = "=1.0.1"
static_assertions = "=1.1.0"
tracing = "=0.1.44"
tracing-subscriber = { version = "=0.3.23", features = ["env-filter"] }
wgpu = "=30.0.1"
winit = { version = "=0.30.13", default-features = false, features = ["x11", "wayland", "rwh_06"] }
