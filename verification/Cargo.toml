[package]
name = "topdown"
version = "0.1.0"
edition = "2021"
publish = false

[dependencies]
glium = "0.32"
hecs = "0.10"
image = "0.24"
nalgebra-glm = "0.18"
