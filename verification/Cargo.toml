[package]
name = "world_smith"
version = "0.1.0"
edition = "2021"
publish = false

[dependencies]
anyhow = "1"
eframe = { version = "0.31", default-features = false, features = ["default_fonts", "glow", "x11"] }
egui = "0.31"
env_logger = { version = "0.11", default-features = false }
fluent = "0.16"
unic-langid = "0.9"
image = { version = "0.25", default-features = false, features = ["bmp"] }
log = "0.4"
rand = "0.8"
rand_xoshiro = "0.6"
rfd = { version = "0.15", default-features = false, features = ["xdg-portal", "tokio"] }
rstar = "0.12"
