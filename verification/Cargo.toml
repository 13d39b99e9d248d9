[package]
name = "alacritty_graphics"
version = "0.1.0"
edition = "2021"
publish = false

[dependencies]
base64 = "0.13"
image = { version = "0.24", default-features = false, features = ["png", "jpeg", "gif", "bmp"] }
log = "0.4"
parking_lot = "0.12"
serde = { version = "1", features = ["derive"] }
