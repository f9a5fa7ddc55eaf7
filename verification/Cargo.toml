[package]
name = "raytracer"
version = "0.1.0"
edition = "2021"

[dependencies]
eframe = "0.19"
egui = "0.19"
rand = "0.8"
