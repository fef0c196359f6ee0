[package]
name = "egui_dock"
version = "0.6.3"
edition = "2021"
publish = false

[dependencies]
egui = { version = "0.22", features = ["serde"] }
serde = { version = "1", features = ["derive"] }
duplicate = "1"
paste = "1"
