[package]
name = "target_resolve"
version = "0.1.0"
edition = "2021"
publish = false

[dependencies]
into-result = "*"
log = "*"
