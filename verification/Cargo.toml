[package]
name = "terrain_edit"
version = "0.1.0"
edition = "2021"
publish = false

[dependencies]
noise = "0.7"
png = "*"
serde_json = "1"
