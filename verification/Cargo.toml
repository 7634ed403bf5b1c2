[package]
name = "imagev"
version = "0.1.0"
edition = "2021"
publish = false

[dependencies]
kamadak-exif = "*"
rusqlite = { version = "*", features = ["bundled"] }
chrono = "*"
serde = { version = "*", features = ["derive"] }
