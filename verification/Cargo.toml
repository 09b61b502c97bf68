[package]
name = "grid"
version = "0.1.0"
edition = "2021"
publish = false

[dependencies]
rand = "=0.8.8"
anyhow = "=1.0.104"
num-integer = "=0.1.47"
vsvg = { version = "0.4", default-features = false }
