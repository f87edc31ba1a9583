[package]
name = "gantz"
version = "0.1.0"
edition = "2021"
publish = false

[dependencies]
base64 = "0.22"
blake3 = "1"
bevy_app = "*"
bevy_ecs = "*"
bevy_log = "*"
cpal = "*"
egui = { version = "*", default-features = false }
egui_extras = { version = "*", default-features = false }
egui_graph = "*"
egui_plot = "*"
log = "0.4"
petgraph = "*"
plyphon = "*"
postcard = { version = "1", features = ["use-std"] }
ron = "*"
serde = { version = "1", features = ["derive"] }
steel-core = "*"
thiserror = "2"
web-time = "1"
