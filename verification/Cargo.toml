[package]
name = "wev"
version = "0.1.0"
edition = "2021"
publish = false

[dependencies]
combine = "=4.6.8"
crossterm = "=0.29.0"
ratatui = "=0.30.2"
reqwest = { version = "=0.13.5", default-features = false, features = ["blocking"] }
unicode-segmentation = "=1.13.3"
unicode-width = "=0.1.12"
