[package]
name = "isleworld"
version = "0.1.0"
edition = "2021"
publish = false

[dependencies]
turbulence = "*"
smol = "*"
glam = "*"
log = "*"
pretty_env_logger = "*"
serde = { version = "*", features = ["derive"] }
