[package]
name = "nai_tokenizer"
version = "0.1.0"
edition = "2021"
publish = false

[dependencies]
ahash = "=0.8.12"
indexmap = { version = "=2.14.2", features = ["serde"] }
fancy-regex = "=0.20.0"
serde = { version = "=1.0.229", features = ["derive"] }
serde_json = "=1.0.154"
