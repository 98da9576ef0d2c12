[package]
name = "raices"
version = "0.1.0"
edition = "2021"
publish = false

[dependencies]
chrono = "0.4"
egui = "0.21"
egui_extras = "0.21"
eframe = { version = "0.21", default-features = false, features = ["default_fonts", "glow"] }
