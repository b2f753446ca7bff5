[package]
name = "h2"
version = "0.1.0"
edition = "2021"
publish = false

[dependencies]
bytes = "1"
slab = "0.4"
http = "1"
