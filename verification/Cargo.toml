[package]
name = "adflib"
version = "0.1.0"
edition = "2021"
publish = false

[dependencies]
zip = "*"
serde = { version = "*", features = ["derive"] }
serde_json = "*"
chrono = "*"
clap = { version = "*", features = ["derive"] }
