[package]
name = "temple"
version = "0.1.0"
edition = "2021"
publish = false

[dependencies]
serde = { version = "1", features = ["derive"] }
chrono = { version = "0.4", default-features = false, features = ["serde", "std", "clock"] }
image = { version = "0.25", default-features = false }
