[package]
name = "voxel_world"
version = "0.1.0"
edition = "2021"
publish = false

[dependencies]
rand = "0.8"
noise = "0.8"
nalgebra = "*"
nalgebra-glm = "*"
num-traits = "0.2"
itertools = "*"
specs = "*"
gl = "0.14"
glfw = "*"
image = { version = "*", default-features = false, features = ["png"] }
