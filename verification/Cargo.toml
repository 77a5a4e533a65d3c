[package]
name = "resort"
version = "0.1.0"
edition = "2021"
publish = false

[dependencies]
noodles = { version = "0.33", features = ["bed"] }
