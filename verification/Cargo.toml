[package]
name = "mlatu"
version = "0.1.0"
edition = "2021"
publish = false

[dependencies]
unic-ucd = "0.9"
anyhow = "1"
