[package]
name = "tri_bvh"
version = "0.1.0"
edition = "2021"
publish = false

[dependencies]
rayon = "=1.12.0"
bytemuck = { version = "=1.25.2", features = ["derive"] }
cgmath = "=0.18.0"
gltf = { version = "=1.4.1", features = ["KHR_materials_ior", "KHR_materials_specular", "KHR_materials_transmission"] }
log = "0.4"
env_logger = "0.10"
rand = "0.8"
serde = { version = "1", features = ["derive"] }
wgpu = "=0.17.2"
winit = "=0.28.7"
