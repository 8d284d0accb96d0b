[package]
name = "minilsm"
version = "0.1.0"
edition = "2021"
publish = false

[dependencies]
lru = { version = "=0.18.5", default-features = false }

[dev-dependencies]
rand = "=0.10.3"
