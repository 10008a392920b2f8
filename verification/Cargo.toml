[package]
name = "voxels"
version = "0.1.0"
edition = "2021"
publish = false

[dependencies]
ahash = "0.8"
bvh = "*"
clap = { version = "4", features = ["derive"] }
gltf = "1"
image = { version = "0.25", default-features = false, features = ["png", "jpeg"] }
indicatif = "0.17"
nalgebra = "*"
