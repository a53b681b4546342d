[package]
name = "overengineering"
version = "0.1.0"
edition = "2021"
publish = false

[dependencies]
anyhow = "1"
chrono = "0.4"
diesel = { version = "2", features = ["sqlite", "chrono"] }
lazy_static = "1"
minify-html-onepass = "*"
rand = "0.8"
reqwest = "0.12"
rocket = "0.5"
rocket_cors = "0.6"
serde = { version = "1", features = ["derive"] }
serde_json = "1"
serde_yaml = "0.9"
