[package]
name = "pagesum"
version = "0.1.0"
edition = "2021"
publish = false

[dependencies]
html2text = "0.6"
reqwest = { version = "*", default-features = false }
tokio = { version = "*", features = ["rt-multi-thread", "macros"] }
serde_json = "*"
