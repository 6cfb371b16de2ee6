[package]
name = "solver"
version = "0.1.0"
edition = "2021"
publish = false

[dependencies]
ulid = "*"
clap = { version = "*", features = ["derive"] }
serde = { version = "*", features = ["derive"] }
serde_json = "*"
