[package]
name = "rust_minibrowser"
version = "0.1.0"
edition = "2021"
publish = false

[dependencies]
url = "2"
serde_json = "1"
pom = "3"
cgmath = "*"
image = { version = "0.23", default-features = false, features = ["png", "jpeg"] }
reqwest = { version = "*", default-features = false, features = ["blocking"] }
glium = "*"
glium-glyph = "*"
lazy_static = "1"
