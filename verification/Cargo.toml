[package]
name = "tfidf"
version = "0.1.0"
edition = "2021"
publish = false

[dependencies]
rust-stemmers = "1"
csv = "1"
serde = { version = "1", features = ["derive"] }
rayon = "1"
crossbeam = "0.8"
