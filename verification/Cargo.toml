[package]
name = "cmac_core"
version = "0.1.0"
edition = "2021"
publish = false

[dependencies]
subtle = "2"

[dev-dependencies]
aes = "0.8"
