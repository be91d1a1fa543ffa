[package]
name = "raytracer"
version = "0.1.0"
edition = "2021"
publish = false

[dependencies]
rand = "0.8"
nanorand = "0.7"
rayon = "1"
image = { version = "0.25", default-features = false, features = ["png", "jpeg"] }
