[package]
name = "genetic_rockets"
version = "0.1.0"
edition = "2021"
publish = false

[dependencies]
glam = "0.17"
nannou = { version = "0.19", default-features = false }
rand = "0.8"
