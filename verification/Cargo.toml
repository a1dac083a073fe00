[package]
name = "easy_project_finder"
version = "0.1.0"
edition = "2021"
publish = false

[dependencies]
clap = "4"
directories = "5"
fuzzy-matcher = "0.3"
serde = { version = "1", features = ["derive"] }
serde_yaml = "0.9"
