[package]
name = "cosmic_shell"
version = "0.1.0"
edition = "2021"
publish = false

[dependencies]
smithay = { version = "*", default-features = false, features = ["desktop", "wayland_frontend"] }
serde = { version = "1", features = ["derive"] }
cosmic-protocols = "*"
