[package]
name = "orbit_playground"
version = "0.1.0"
edition = "2021"
publish = false

[dependencies]
anyhow = "1"
cgmath = { version = "0.18", features = ["serde"] }
eframe = { version = "0.32", default-features = false, features = ["default_fonts", "wgpu", "persistence", "x11"] }
egui-file-dialog = "0.11"
encase = { version = "0.11", features = ["cgmath"] }
peak_alloc = "0.3"
serde = { version = "1", features = ["derive"] }
serde_json = "1"
