[package]
name = "crashlens"
version = "0.1.0"
edition = "2021"
publish = false

[dependencies]
minidump = "=0.27.0"
minidump-processor = "=0.27.0"
minidump-unwind = "=0.27.0"
tokio = { version = "=1.54.1", features = ["rt"] }
serde_json = "=1.0.154"
anyhow = "=1.0.104"
eframe = { version = "=0.35.0", default-features = false, features = ["default_fonts", "glow", "x11"] }
egui_extras = { version = "=0.35.0", default-features = false }
epaint_default_fonts = "=0.35.0"
