[package]
name = "pixelsorter"
version = "0.1.0"
edition = "2021"
publish = false

[dependencies]
rayon = "1"
image = { version = "0.24", default-features = false, features = ["png", "jpeg", "gif", "bmp", "tiff", "tga", "webp"] }
eframe = { version = "0.22", default-features = false, features = ["glow", "default_fonts"] }
native-dialog = "0.6"
