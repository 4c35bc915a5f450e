[package]
name = "metemplate"
version = "0.1.0"
edition = "2021"
publish = false

[dependencies]
anyhow = "1"
clap = { version = "4", features = ["derive"] }
dirs = "*"
rand = "0.9"
serde = { version = "1", features = ["derive"] }
toml = "*"
