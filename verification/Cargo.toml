[package]
name = "srs_forecast"
version = "0.1.0"
edition = "2021"
publish = false

[dependencies]
rand = "0.8"
chrono = "0.4"
serde_json = "1"
indicatif = "0.17"
rusqlite = { version = "0.31", features = ["bundled"] }
