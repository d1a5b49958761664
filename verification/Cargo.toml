[package]
name = "build_pulse"
version = "0.1.0"
edition = "2021"
publish = false

[dependencies]
regex = "1"
rusqlite = { version = "*", features = ["bundled", "functions"] }
serde = { version = "1", features = ["derive"] }
serde_json = "1"
toml = "*"
clap = { version = "4", features = ["derive"] }
anyhow = "1"
log = "*"
env_logger = "*"
time = { version = "0.3", features = ["formatting", "macros"] }
jenkins_api = "*"
