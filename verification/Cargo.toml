[package]
name = "plonk_core"
version = "0.1.0"
edition = "2021"
publish = false

[dependencies]
ff = { version = "0.13", default-features = false }
group = { version = "0.13", default-features = false }
rand_core = { version = "0.6", default-features = false }
