[package]
name = "youngl_music"
version = "0.1.0"
edition = "2021"
publish = false

[dependencies]
audiotags = "0.5"
base64 = "0.22"
id3 = "1"
lazy_static = "1"
metaflac = "0.2"
mp4ameta = "*"
rodio = "0.21"
serde = { version = "1", features = ["derive"] }
souvlaki = "0.8"
walkdir = "2"
