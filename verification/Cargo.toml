[package]
name = "dyna"
version = "0.1.0"
edition = "2021"
publish = false

[dependencies]
rust-stemmers = "=1.2.0"
docx-rs = "=0.4.22"
zip = { version = "=8.6.0", default-features = false, features = ["deflate"] }
url = "=2.5.8"
serde = { version = "=1.0.229", features = ["derive"] }
serde_json = "=1.0.154"
clap = { version = "=4.6.7", features = ["derive"] }
tiny_http = "=0.12.0"
anyhow = "=1.0.104"
mupdf = "=0.8.0"
