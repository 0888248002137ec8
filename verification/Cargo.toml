[package]
name = "indexer"
version = "0.1.0"
edition = "2021"
publish = false

[dependencies]
rust-stemmers = "*"
anyhow = "*"
clap = { version = "*", features = ["derive"] }
home = "*"
csv = "*"
scraper = "*"
html5ever = "*"
tendril = "*"
xml-rs = "*"
lopdf = "*"
rayon = "*"
indicatif = "*"
stop-words = "*"
tiny_http = "*"
