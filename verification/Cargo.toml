[package]
name = "string_art"
version = "0.1.0"
edition = "2021"
publish = false

[dependencies]
rayon = "*"
image = "*"
indicatif = "*"
clap = "*"
serde = { version = "*", features = ["derive"] }
serde_json = "*"
thiserror = "*"
