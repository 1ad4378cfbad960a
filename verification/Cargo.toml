[package]
name = "bureaucrat"
version = "0.1.0"
edition = "2021"
publish = false

[dependencies]
clap = { version = "*", features = ["derive", "env"] }
git2 = "*"
log = "*"
pretty_env_logger = "*"
serde = { version = "*", features = ["derive"] }
serde_yaml = "*"
tempfile = "*"
