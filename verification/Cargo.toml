[package]
name = "fpm_core"
version = "0.1.0"
edition = "2021"
publish = false

[dependencies]
flatpak-rs = "*"
log = "*"
serde = { version = "*", features = ["derive"] }
serde_yaml = "*"
simple-logging = "*"
