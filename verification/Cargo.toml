[package]
name = "paperx"
version = "0.1.0"
edition = "2021"
publish = false

[dependencies]
anyhow = "*"
clap = { version = "*", features = ["derive"] }
notify = "*"
open = "*"
serde = { version = "*", features = ["derive"] }
toml = "*"
walkdir = "*"
which = "*"
