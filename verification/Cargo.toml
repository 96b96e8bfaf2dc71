[package]
name = "crawl4ai_core"
version = "0.1.0"
edition = "2021"
publish = false

[dependencies]
kuchiki = "0.8"
rust-stemmers = "1"
regex = "1"
html2text = "*"
serde = { version = "1", features = ["derive"] }
serde_json = "1"
clap = { version = "4", features = ["derive"] }
tokio = { version = "1", features = ["rt-multi-thread", "macros", "time"] }
reqwest = { version = "0.12", features = ["json"] }
futures = "0.3"
