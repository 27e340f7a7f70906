[package]
name = "bayes_text"
version = "0.1.0"
edition = "2021"
publish = false

[dependencies]
indexmap = "*"
serde = { version = "*", features = ["derive"] }
serde_json = "*"
parquet = { version = "*", default-features = false }
