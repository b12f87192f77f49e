[package]
name = "crate_names"
version = "0.1.0"
edition = "2021"
publish = false

[dependencies]
zstd = "=0.13.4"
tar = "0.4"
flate2 = "1"
csv = "1"
