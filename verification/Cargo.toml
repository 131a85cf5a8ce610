[package]
name = "java_random"
version = "0.1.0"
edition = "2021"
publish = false

[dependencies]
once_cell = "1"

[dev-dependencies]
rand = "0.8"
