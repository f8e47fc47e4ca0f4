[package]
name = "voxel_terrain"
version = "0.1.0"
edition = "2021"
publish = false

[dependencies]
rand = "*"
cgmath = "*"
glium = "*"
glutin = "*"
image = "*"
