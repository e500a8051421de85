[package]
name = "aaska"
version = "0.1.0"
edition = "2021"
publish = false

[dependencies]
serde_yaml = "*"
chrono = "*"
comrak = { version = "*", default-features = false }
markdown = "*"
clap = { version = "*", features = ["derive"] }
maud = "*"
