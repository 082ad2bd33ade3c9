[package]
name = "matchgen"
version = "0.1.0"
edition = "2021"
publish = false

[dependencies]
itertools = "*"
anyhow = "*"
clap = { version = "*", features = ["derive"] }
