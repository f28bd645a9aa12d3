[package]
name = "osfacts"
version = "0.1.0"
edition = "2021"
publish = false

[dependencies]
lexopt = "0.3"
libc = "0.2"
serde = { version = "1", features = ["derive"] }
serde_json = "1"
