[package]
name = "verso_core"
version = "0.1.0"
edition = "2021"
publish = false

[dependencies]
base64 = "*"
url = "*"
serde = { version = "*", features = ["derive"] }
serde_json = "*"
notify = "*"
walkdir = "*"
tantivy = "*"
open = "*"
