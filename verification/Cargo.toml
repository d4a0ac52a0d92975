[package]
name = "fluid-2d"
version = "0.1.0"
edition = "2021"
publish = false

[dependencies]
bevy = { version = "=0.13.2", default-features = false }
leptos = "0.8"
rand = "0.8"
uuid = { version = "1", features = ["v4"] }
