[package]
name = "bitmapflow-cli"
version = "0.1.0"
edition = "2021"
publish = false

[dependencies]
anyhow = "1"
clap = { version = "4", features = ["derive"] }
image = "0.25"
opencv = "0.93"
serde = { version = "1", features = ["derive"] }
serde_json = "1"
