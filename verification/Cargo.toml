[package]
name = "axmzip"
version = "0.5.3"
edition = "2021"
publish = false

[dependencies]
md5 = "=0.7.0"
eframe = { version = "=0.27.2", default-features = false, features = ["default_fonts", "glow"] }
rfd = { version = "0.12", default-features = false, features = ["xdg-portal"] }
