[package]
name = "staged_kv"
version = "0.1.0"
edition = "2021"
publish = false

[dependencies]
chashmap = "*"
syncbox = "*"
ctrlc = "*"
