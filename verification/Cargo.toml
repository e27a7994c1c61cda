[package]
name = "bimanual_collision"
version = "0.1.0"
edition = "2021"
publish = false

[dependencies]
nalgebra = "0.33"
thiserror = "1.0"

[dev-dependencies]
rand = "0.8"
