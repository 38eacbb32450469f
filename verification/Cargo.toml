[package]
name = "surface_nets"
version = "0.1.0"
edition = "2021"
publish = false

[dependencies]
cgmath = "0.16"
gfx = "0.18"
gfx_window_glutin = "0.31"
glutin = "0.21"
noise = { version = "0.5", default-features = false }
