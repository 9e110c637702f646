[package]
name = "fuzzy_trie"
version = "0.1.0"
edition = "2021"
publish = false

[dependencies]
strsim = "*"
serde = { version = "*", features = ["derive"] }
serde_json = "*"
lazy_static = "*"
