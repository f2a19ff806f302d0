[package]
name = "blue_engine_utilities"
version = "0.1.0"
edition = "2021"
publish = false

[dependencies]
blue_engine = "=0.5.21"
egui = { version = "=0.29.1", default-features = false }
egui-wgpu = { version = "=0.29.1", default-features = false }
egui-winit = { version = "=0.29.1", default-features = false }
gltf = "=1.4.1"
anyhow = "=1.0.104"
eyre = "=0.6.14"
keyframe = { version = "=1.1.1", default-features = false }
keyframe_derive = "=1.0.0"
