[package]
name = "halide_raytracer"
version = "0.1.0"
edition = "2021"
publish = false

[dependencies]
anyhow = "=1.0.104"
glam = "=0.34.1"
glium = "0.32"
imgui = "0.11"
imgui-glium-renderer = "0.11"
imgui-winit-support = "0.11"
num_cpus = "1"
parking_lot = "=0.12.5"
pix = "=1.0.1"
png_pong = "=0.12.0"
rand = "=0.8.8"
rayon = "=1.12.0"
