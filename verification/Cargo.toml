[package]
name = "thorium_ui"
version = "0.1.0"
edition = "2021"
publish = false

[dependencies]
bevy = { version = "=0.16.1", default-features = false, features = ["bevy_ui", "bevy_picking", "bevy_ui_picking_backend", "bevy_window", "bevy_input_focus", "ghost_nodes"] }
accesskit = "=0.18.0"
