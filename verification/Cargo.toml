[package]
name = "ngram_index"
version = "0.1.0"
edition = "2021"
publish = false

[dependencies]
arrow-array = "*"
serde = { version = "*", features = ["derive"] }
serde_json = "*"
