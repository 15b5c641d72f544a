[package]
name = "radiochron"
version = "0.1.0"
edition = "2021"
publish = false

[dependencies]
serde = { version = "1", features = ["derive"] }
serde_json = "1"
anyhow = "1"
esp32-nimble = "*"
esp-idf-svc = "*"
