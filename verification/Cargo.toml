[package]
name = "kotoclip_core"
version = "0.1.0"
edition = "2021"
publish = false

[dependencies]
unicode-normalization = "=0.1.26"
sha2 = "=0.10.9"
flate2 = "=1.1.10"
html5ever = "=0.40.1"
serde = { version = "=1.0.229", features = ["derive"] }
serde_json = "=1.0.154"
rmp-serde = "=1.3.1"
ammonia = "=4.2.4"
regex = "1"
