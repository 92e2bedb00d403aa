[package]
name = "linuxblaster_control"
version = "0.1.0"
edition = "2021"
publish = false

[dependencies]
hidapi = "*"
serde = { version = "*", features = ["derive"] }
serde_json = "*"
