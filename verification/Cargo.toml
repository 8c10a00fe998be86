[package]
name = "mbr"
version = "0.1.0"
edition = "2021"
publish = false

[dependencies]
regex = "=1.13.1"
scraper = "=0.29.0"
html-escape = "=0.3.0"
url = "=2.5.8"
walkdir = "=2.5.0"
aho-corasick = "=1.1.5"
pulldown-cmark = { version = "=0.13.6", default-features = false }
lru = "=0.19.0"
papaya = "=0.2.5"
serde = { version = "=1.0.229", features = ["derive"] }
serde_json = "=1.0.154"
yaml-rust2 = "*"
