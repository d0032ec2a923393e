[package]
name = "terrain_water"
version = "0.1.0"
edition = "2021"
publish = false

[dependencies]
bevy = { version = "=0.18.1", default-features = false, features = ["bevy_image"] }
bytemuck = { version = "=1.25.2", features = ["derive"] }
wgpu-types = { version = "=27.0.1", default-features = false }
