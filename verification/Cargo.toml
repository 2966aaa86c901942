[package]
name = "shader_graph"
version = "0.1.0"
edition = "2021"
publish = false

[dependencies]
anyhow = "=1.0.104"
bevy = { version = "=0.17.3", default-features = false, features = ["bevy_asset", "bevy_render", "bevy_pbr"] }
egui = { version = "=0.32.3", default-features = false }
egui_extras = { version = "=0.32.3", default-features = false }
glam = "=0.30.10"
log = "=0.4.34"
node_engine = "=0.7.0"
serde = { version = "=1.0.229", features = ["derive"] }
serde_json = "=1.0.154"
