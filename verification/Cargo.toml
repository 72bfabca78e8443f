[package]
name = "collab_filter"
version = "0.1.0"
edition = "2021"
publish = false

[dependencies]
nalgebra-sparse = "*"
tokio = { version = "1", features = ["rt", "macros"] }
