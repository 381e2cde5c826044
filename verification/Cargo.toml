[package]
name = "crabgit"
version = "0.1.0"
edition = "2021"
publish = false

[dependencies]
dirs = "6"
time = "0.3"
globset = "0.4"
sha2 = "0.10"
tempfile = "3"
git2 = { version = "0.20", default-features = false }
clap = { version = "4", features = ["derive"] }
crossterm = "0.28"
dialoguer = "0.11"
ratatui = "0.29"
rayon = "1"
serde = { version = "1", features = ["derive"] }
serde_json = "1"
toml = "0.8"
walkdir = "2"
anyhow = "1"
