[package]
name = "textris"
version = "0.1.0"
edition = "2021"
publish = false

[dependencies]
fastrand = "2"
ratatui = "0.29"
crossterm = "0.28"
rodio = { version = "0.20", default-features = false }
