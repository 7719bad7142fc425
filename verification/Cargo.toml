[package]
name = "sofab"
version = "0.1.0"
edition = "2021"
publish = false

[dev-dependencies]
heapless = "=0.8.0"
