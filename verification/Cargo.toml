[package]
name = "asset_pipeline"
version = "0.1.0"
edition = "2021"
publish = false

[dependencies]
argh = "0.1"
bevy = { version = "0.16", default-features = false, features = ["std", "async_executor", "multi_threaded", "bevy_asset", "bevy_core_pipeline", "bevy_pbr", "bevy_render", "bevy_scene", "bevy_gltf", "bevy_window", "bevy_winit", "bevy_log", "png", "ktx2", "zstd", "tonemapping_luts", "x11"] }
