[package]
name = "ballz"
version = "0.1.0"
edition = "2021"
publish = false

[dependencies]
ac-ffmpeg = "*"
lazy_static = "1"
macroquad = { version = "0.3", default-features = false }
