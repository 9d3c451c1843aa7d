[package]
name = "rust_project_complete"
version = "0.1.0"
edition = "2021"
publish = false

[dependencies]
clap = { version = "*", features = ["derive"] }
env_logger = "*"
serde = { version = "*", features = ["derive"] }
serde_json = "*"
thiserror = "*"
uuid = { version = "*", features = ["v4"] }
