[package]
name = "egui_ailanthus"
version = "0.2.1"
edition = "2021"
publish = false

[dependencies]
egui = { version = "*", features = ["accesskit"] }
serde = { version = "1", features = ["derive"] }
