[package]
name = "miterra"
version = "0.1.0"
edition = "2021"
publish = false

[dependencies]
cgmath = "0.17"
gfx = "0.18"
gfx_device_gl = "0.16"
gfx_window_glutin = "0.31"
glutin = "0.21"
image = { version = "0.23", default-features = false, features = ["jpeg"] }
