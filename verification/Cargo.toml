[package]
name = "hints"
version = "0.1.0"
edition = "2021"
publish = false

[dependencies]
alacritty_terminal = "=0.26.0"
log = "0.4"
winit = { version = "=0.30.13", default-features = false, features = ["x11", "rwh_06"] }
