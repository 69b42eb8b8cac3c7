[package]
name = "debian"
version = "0.1.0"
edition = "2021"
publish = false

[dependencies]
chrono = "*"
log = "*"
serde = { version = "*", features = ["derive"] }
