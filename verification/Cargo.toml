[package]
name = "golfscript"
version = "0.1.0"
edition = "2021"
publish = false

[dependencies]
num = "*"
clap = { version = "*", features = ["derive"] }
