[package]
name = "spirolab"
version = "0.1.0"
edition = "2021"
publish = false

[dependencies]
num = "0.4.3"
eframe = { version = "0.31.1", default-features = false, features = ["default_fonts", "glow", "x11"] }
env_logger = "0.11"
log = "0.4"
