[package]
name = "lz4_kit"
version = "0.1.0"
edition = "2021"
publish = false

[dependencies]
lz4_flex = "*"

[dev-dependencies]
twox-hash = "*"
