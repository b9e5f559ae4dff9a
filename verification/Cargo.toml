[package]
name = "lotto_sim"
version = "0.1.0"
edition = "2021"
publish = false

[dependencies]
rand = "0.9"
rayon = "1"
serde = { version = "1", features = ["derive"] }
toml = "*"
eframe = { version = "*", default-features = false, features = ["default_fonts", "glow", "x11"] }
egui_plot = "*"
