[package]
name = "ingestd"
version = "0.1.0"
edition = "2021"
publish = false

[dependencies]
sled = "0.34"
clap = { version = "4", features = ["derive"] }
log = "0.4"
simplelog = "0.12"
signal-hook = "0.3"
readfilez = "*"
