[package]
name = "seroost"
version = "0.1.0"
edition = "2021"
publish = false

[dependencies]
anyhow = "*"
clap = { version = "*", features = ["derive"] }
serde = { version = "*", features = ["derive"] }
serde_json = "*"
tiny_http = "*"
walkdir = "*"
xml-rs = "*"
