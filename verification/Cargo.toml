[package]
name = "poe_crafting"
version = "0.1.0"
edition = "2021"
publish = false

[dependencies]
rand = "=0.9.5"
itertools = "=0.14.0"
csv = "=1.4.0"
serde = { version = "=1.0.229", features = ["derive"] }
serde_json = "=1.0.154"
serde_with = "=3.24.0"
egui = "=0.32.3"
eframe = { version = "=0.32.3", default-features = false, features = ["default_fonts", "glow", "x11"] }
