[package]
name = "voxelcraft"
version = "0.1.0"
edition = "2021"
publish = false

[dependencies]
glam = "*"
bytemuck = { version = "1", features = ["derive"] }
log = "0.4"
env_logger = "*"
