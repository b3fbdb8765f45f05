[package]
name = "blusc"
version = "0.1.0"
edition = "2021"
publish = false

[dependencies]
flate2 = "1"
lz4_flex = "0.11"
snap = "1"
zstd = "0.13"
