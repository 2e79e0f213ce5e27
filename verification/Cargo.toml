[package]
name = "gaze"
version = "0.1.0"
edition = "2021"
publish = false

[dependencies]
argon2 = "0.5"
chacha20poly1305 = "0.10"
serde = { version = "1", features = ["derive"] }
serde_json = "1"
serde_yaml = "0.9"
gtk4 = "*"
webkit6 = "*"
javascriptcore6 = "*"
libc = "0.2"

[dev-dependencies]
