[package]
name = "anime_filter"
version = "0.1.0"
edition = "2021"
publish = false

[dependencies]
rusqlite = { version = "*", features = ["bundled"] }
csv = "*"
serde = { version = "*", features = ["derive"] }
chrono = "*"
