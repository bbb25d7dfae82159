[package]
name = "helix_egui"
version = "0.1.0"
edition = "2021"
publish = false

[dependencies]
anyhow = "1"
egui = "0.16"
log = "0.4"
toml = "0.5"
unicode-segmentation = "1"
