[package]
name = "bibicode"
version = "0.1.0"
edition = "2021"
publish = false

[dependencies]
indexmap = "*"
regex = "*"
clap = { version = "*", features = ["derive"] }
serde = { version = "*", features = ["derive"] }
serde_json = "*"
xdg = "*"
