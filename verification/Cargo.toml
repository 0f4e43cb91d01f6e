[package]
name = "raytracer"
version = "0.1.0"
edition = "2021"
publish = false

[dependencies]
image = { version = "0.24", default-features = false, features = ["png"] }
nalgebra-glm = "0.18"
pixels = "0.13"
winit = { version = "0.28", default-features = false, features = ["x11"] }
