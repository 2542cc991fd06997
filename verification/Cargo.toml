[package]
name = "git_fat"
version = "0.1.0"
edition = "2021"
publish = false

[dependencies]
clap = { version = "4", features = ["derive"] }
env_logger = "0.11"
git2 = { version = "0.20", default-features = false }
hex = "0.4"
log = "0.4"
sha1 = "*"
tempfile = "3"
