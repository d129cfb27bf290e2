[package]
name = "when"
version = "0.5.0"
edition = "2021"
publish = false

[dependencies]
chrono = "*"
chrono-tz = "*"
localzone = "*"
anyhow = "*"
clap = { version = "*", features = ["derive"] }
console = "*"
serde = { version = "*", features = ["derive"] }
serde_json = "*"
