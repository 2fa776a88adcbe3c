[package]
name = "inventory_bot"
version = "0.1.0"
edition = "2021"
publish = false

[dependencies]
base64 = "0.22"
chrono = "0.4"
rand = "0.9"
sha2 = "0.10"
