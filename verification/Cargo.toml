[package]
name = "graphics"
version = "0.1.0"
edition = "2021"
publish = false

[dependencies]
cgmath = "0.17"
collision = "0.20"
num-traits = "0.2"
sdl2 = "*"
timing = "*"
