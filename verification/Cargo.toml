[package]
name = "ray_caster"
version = "0.1.0"
edition = "2021"
publish = false

[dependencies]
image = { version = "=0.25.10", default-features = false, features = ["png"] }
minifb = "=0.27.0"
rand = "=0.8.8"
rodio = { version = "=0.20.1", default-features = false, features = ["mp3", "noise"] }
winapi = { version = "=0.3.9", features = ["windef", "winuser"] }
