[package]
name = "maasbree"
version = "0.1.0"
edition = "2021"
publish = false

[dependencies]
nalgebra = "0.26"
pixels = "0.3"
winit = "0.24"
winit_input_helper = "0.9"
