[package]
name = "rustic_io"
version = "0.1.0"
edition = "2021"
publish = false

[dependencies]
scroll = "*"

[dev-dependencies]
anyhow = "1"
