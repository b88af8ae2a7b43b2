[package]
name = "flake_ci"
version = "0.1.0"
edition = "2021"
publish = false

[dependencies]
annotate-snippets = "*"
anyhow = "*"
clap = { version = "*", features = ["derive"] }
env_logger = "*"
log = "*"
owo-colors = { version = "*", features = ["supports-colors"] }
pathdiff = "*"
serde = { version = "*", features = ["derive"] }
serde_json = "*"
serde_with = "*"
term_size = "*"
toml = "*"
which = "*"
