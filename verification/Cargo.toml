[package]
name = "rupert_gui"
version = "0.1.0"
edition = "2021"
publish = false

[dependencies]
itertools = "=0.15.0"
nalgebra = "=0.35.0"
egui = "0.33"
egui_plot = "0.34"
eframe = { version = "0.33", default-features = false, features = ["default_fonts", "glow", "persistence", "x11"] }
serde = { version = "=1.0.229", features = ["derive"] }
