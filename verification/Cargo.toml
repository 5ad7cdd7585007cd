[package]
name = "git_copyright"
version = "0.1.0"
edition = "2021"
publish = false

[dependencies]
regex = "*"
glob = "*"
anyhow = "*"
chrono = "*"
clap = { version = "*", features = ["derive"] }
env_logger = "*"
futures = "*"
log = "*"
serde = { version = "*", features = ["derive"] }
serde_yaml = "*"
thiserror = "*"
tokio = { version = "*", features = ["full"] }
