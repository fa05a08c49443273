[package]
name = "mon2y_rs"
version = "0.1.0"
edition = "2021"
publish = false

[dependencies]
rand = "0.8"
linked_hash_set = "0.1"
log = "0.4"
env_logger = "0.11"
clap = { version = "4", features = ["derive"] }
clap-verbosity-flag = "*"
serde = { version = "1", features = ["derive"] }
serde_json = "1"
chrono = "0.4"
