[package]
name = "audio_splitter"
version = "0.1.0"
edition = "2021"
publish = false

[dependencies]
anyhow = "=1.0.104"
eframe = { version = "=0.33.3", default-features = false, features = ["default_fonts", "glow", "x11"] }
wasapi = "=0.22.0"
