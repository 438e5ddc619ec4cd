[package]
name = "lado"
version = "0.1.0"
edition = "2021"
publish = false

[dependencies]
anyhow = "*"
clap = { version = "*", features = ["derive"] }
clap_complete = "*"
dirs = "*"
git2 = "*"
serde = { version = "*", features = ["derive"] }
serde_json = "*"
syntect = "*"
toml = "*"
