[package]
name = "lmap"
version = "0.1.0"
edition = "2021"
publish = false

[dependencies]
anyhow = "*"
clap = { version = "*", features = ["derive"] }
hostname = "*"
hwlocality = "1.0.0-alpha.13"
serde = { version = "*", features = ["derive"] }
serde_json = "*"
serde_yaml = "*"
which = "*"
yansi = "*"
