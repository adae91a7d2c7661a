[package]
name = "falling_sand"
version = "0.1.0"
edition = "2021"
publish = false

[dependencies]
rand = "0.8"
pixels = "0.13"
winit = "0.28"
winit_input_helper = "0.14"
env_logger = "0.10"
log = "0.4"
error-iter = "0.4"
