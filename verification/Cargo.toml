[package]
name = "wd"
version = "0.1.0"
edition = "2021"
publish = false

[dependencies]
strsim = "0.11"
clap = { version = "4", features = ["derive"] }
dirs = "*"
eyre = "0.6"
serde = { version = "1", features = ["derive"] }
serde_json = "1"
