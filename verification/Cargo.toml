[package]
name = "dungeoncrawl"
version = "0.1.0"
edition = "2021"
publish = false

[dependencies]
bracket-random = "=0.8.7"
bracket-lib = "=0.8.7"
ron = "0.6"
serde = { version = "1", features = ["derive"] }
