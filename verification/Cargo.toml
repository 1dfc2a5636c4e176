[package]
name = "hamerons_stroke_render"
version = "0.1.0"
edition = "2021"
publish = false

[dependencies]
bevy_app = "0.19.1"
bevy_asset = "0.19.1"
bevy_camera = "0.19.1"
bevy_core_pipeline = "0.19.1"
bevy_ecs = "0.19.1"
bevy_input = "0.19.1"
bevy_math = "0.19.1"
bevy_render = "0.19.1"
bevy_shader = "0.19.1"
bevy_sprite_render = "0.19.1"
bevy_transform = "0.19.1"
bevy_window = "0.19.1"
bytemuck = { version = "*", features = ["derive"] }
png = "=0.18.1"
ron = "=0.12.3"
serde = { version = "*", features = ["derive"] }
tracing = "*"
zip = { version = "=9.2.2", default-features = false, features = ["deflate"] }
