[package]
name = "hyprsuspender"
version = "0.1.0"
edition = "2021"
publish = false

[dependencies]
regex = "*"
hyprland = "*"
sysinfo = "*"
toml = "*"
serde = { version = "*", features = ["derive"] }
