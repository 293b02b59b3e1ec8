[package]
name = "hadron"
version = "0.1.0"
edition = "2021"
publish = false

[dependencies]
chrono = "0.4"
nusb = "0.2"
eframe = { version = "*", default-features = false, features = ["default_fonts", "glow", "x11"] }
egui = "*"
rfd = { version = "*", default-features = false, features = ["xdg-portal", "tokio"] }
image = { version = "*", default-features = false, features = ["png"] }
