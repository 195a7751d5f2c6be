[package]
name = "maimai_touch"
version = "0.1.0"
edition = "2021"
publish = false

[dependencies]
anyhow = "1"
image = { version = "0.25", default-features = false, features = ["png"] }
serialport = { version = "4", default-features = false }
