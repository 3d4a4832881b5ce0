[package]
name = "edmv"
version = "0.1.0"
edition = "2021"

[dependencies]
path-clean = "*"
clap = { version = "*", features = ["derive"] }
tempfile = "*"
