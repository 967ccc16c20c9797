[package]
name = "wpaperd"
version = "1.3.0"
edition = "2021"
publish = false

[dependencies]
fastrand = "2"
walkdir = "2"
new_mime_guess = "4"
dirs = "5"
serde = { version = "1", features = ["derive"] }
serde_json = "1"
toml = "0.8"
clap = { version = "4", features = ["derive"] }
humantime = "2"
humantime-serde = "1"
xdg = "2"
shellexpand = "3"
