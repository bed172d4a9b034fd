[package]
name = "texture_cache_rs"
version = "0.1.0"
edition = "2021"

[dependencies]
bytemuck = { version = "=1.25.2", features = ["min_const_generics"] }
