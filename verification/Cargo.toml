[package]
name = "chip_8"
version = "0.1.0"
edition = "2021"
publish = false

[dependencies]
pixels = { version = "0.15", default-features = false }
winit = { version = "0.30", default-features = false, features = ["rwh_06", "x11"] }
rodio = { version = "0.22", default-features = false }
