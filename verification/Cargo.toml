[package]
name = "sync-vault"
version = "0.1.0"
edition = "2021"
publish = false

[dependencies]
sha2 = "=0.10.9"
hex = "=0.4.3"
anyhow = "=1.0.104"
chrono = "=0.4.45"
walkdir = "=2.5.0"
notify = "=8.2.1"
serde = { version = "=1.0.229", features = ["derive"] }
serde_json = "=1.0.154"
eframe = { version = "=0.31.1", default-features = false, features = ["default_fonts", "glow", "x11", "wayland"] }
egui = "=0.31.1"
rfd = { version = "=0.15.4", default-features = false, features = ["xdg-portal", "tokio"] }
