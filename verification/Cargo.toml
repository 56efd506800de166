[package]
name = "gall_script"
version = "0.1.0"
edition = "2021"
publish = false

[dependencies]
petgraph = "*"
eframe = { version = "*", default-features = false, features = ["glow", "x11"] }
egui = "*"
egui_graphs = "*"
