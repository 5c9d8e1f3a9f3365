[package]
name = "marauder"
version = "0.1.0"
edition = "2021"

[dependencies]
cgmath = "*"
gl = "*"
glfw = "*"
rustc-serialize = "*"
stb_image = "*"
