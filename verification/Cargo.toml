[package]
name = "tone"
version = "0.1.0"
edition = "2021"
publish = false

[dependencies]
cpal = "0.15"
egui = "0.28"
