[package]
name = "prefix_scan"
version = "0.1.0"
edition = "2021"
publish = false

[dependencies]
bytemuck = { version = "1", features = ["derive"] }
futures-intrusive = "0.5"
pollster = "0.3"
wgpu = "0.20"
