[package]
name = "re_utilities"
version = "0.1.0"
edition = "2021"
publish = false

[dependencies]
anyhow = "=1.0.104"

[dev-dependencies]
patternscan = "=1.2.0"
