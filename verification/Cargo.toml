[package]
name = "sprite_sheet"
version = "0.1.0"
edition = "2021"
publish = false

[dependencies]
image = { version = "*", default-features = false, features = ["png", "jpeg"] }
serde = { version = "*", features = ["derive"] }
serde_json = "*"
