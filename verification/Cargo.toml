[package]
name = "dirwalk"
version = "0.1.0"
edition = "2021"
publish = false

[dependencies]
rand = "*"
futures = "*"
tokio = { version = "*", features = ["rt-multi-thread", "fs", "macros"] }
