[package]
name = "sseer"
version = "0.1.0"
edition = "2021"
publish = false

[dependencies]
memchr = "*"
futures-core = "*"
pin-project-lite = "*"
serde = "*"
serde_json = "*"
serde_path_to_error = "*"
