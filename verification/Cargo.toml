[package]
name = "trio_capture"
version = "0.1.0"
edition = "2021"
publish = false

[dependencies]
anyhow = "1"
bytemuck = { version = "1", features = ["derive"] }
cpal = "=0.18.2"
crossbeam-channel = "0.5"
eframe = { version = "=0.35.0", default-features = false, features = ["wgpu", "default_fonts", "x11"] }
egui = "=0.35.0"
egui-wgpu = "=0.35.0"
rayon = "1"
rfd = "=0.17.2"
rustfft = "=6.4.1"
serde = { version = "1", features = ["derive"] }
serde_json = "=1.0.154"
tracing = "0.1"
tracing-subscriber = { version = "0.3", features = ["env-filter"] }
wgpu = "=29.0.4"
