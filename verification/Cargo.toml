[package]
name = "agilulf"
version = "0.1.0"
edition = "2021"
publish = false

[dependencies]
memchr = "2"
fnv = "1.0"

[dev-dependencies]
rand = "0.8"
