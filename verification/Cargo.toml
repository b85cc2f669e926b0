[package]
name = "wiki_builder"
version = "0.1.0"
edition = "2021"
publish = false

[dependencies]
anyhow = "1"
pulldown-cmark = "*"
serde = { version = "1", features = ["derive"] }
serde_json = "1"
tera = "1"
walkdir = "2"

[dev-dependencies]
regex = "1"
