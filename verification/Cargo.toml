[package]
name = "basic"
version = "0.2.0"
edition = "2021"
publish = false

[dependencies]
clap = "2"
gifski = { version = "*", default-features = false }
image = { version = "0.25", default-features = false, features = ["jpeg", "png"] }
imgref = "1"
rgb = "0.8"
