[package]
name = "pocket"
version = "0.1.0"
edition = "2021"
publish = false

[dependencies]
chrono = { version = "0.4", default-features = false, features = ["clock"] }
egui = "=0.30.0"
egui_demo_lib = "=0.30.0"
serde = { version = "1", features = ["derive"] }
