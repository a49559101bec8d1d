[package]
name = "eldra"
version = "0.1.0"
edition = "2021"
publish = false

[dependencies]
yaml-rust2 = "*"
uuid = { version = "*", features = ["v4"] }
nalgebra = "*"
once_cell = "*"
