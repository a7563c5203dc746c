[package]
name = "primary_radar"
version = "0.1.0"
edition = "2021"
publish = false

[dependencies]
bincode = "1"
serde_json = "1"
lazy_static = "1"
gdal = "*"
