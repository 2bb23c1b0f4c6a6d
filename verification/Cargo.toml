[package]
name = "ocdscardinal"
version = "0.1.0"
edition = "2021"
publish = false

[dependencies]
anyhow = "1"
chrono = "0.4"
clap = { version = "4", features = ["derive"] }
config = { version = "0.14", default-features = false, features = ["ini"] }
human-panic = "2"
indexmap = { version = "2", features = ["serde"] }
log = "0.4"
pretty_env_logger = "0.5"
rayon = "1"
serde = { version = "1", features = ["derive"] }
serde_json = "1"
serde_path_to_error = "0.1"
statrs = "0.17"
