[package]
name = "enigmap"
version = "0.1.0"
edition = "2021"
publish = false

[dependencies]
noise = { version = "0.6", default-features = false }
rand = "0.7"
png = "0.15"
